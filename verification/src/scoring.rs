//! Which shortcuts the contraction of a node needs, and the priority that
//! follows from their number.

use crate::adjacency::{has_link, links_view, targets_within};
use crate::ch::CH;
use crate::lookup::{
    lemma_near_joined, lemma_near_kept, lemma_picked_near, near_from, nearly, nearly_upto, spare,
};
use crate::network::{IdxLink, IdxLinkDir, IdxNodeKey, LinkView, COST_SPAN};
use crate::search::without;
use crate::shortcut::CHContraction;
use crate::witness::{dearest, direct_seen, lemma_dearest, paired_off, reaches, witnessed};
use vstd::prelude::*;

verus! {

/// A priority-queue entry of a node: the lower the score, the earlier the
/// node is to be contracted.
#[derive(Clone, Copy, Debug, PartialEq, Eq)]
pub struct CHEntry {
    pub score: i32,
    pub key: IdxNodeKey,
}

impl crate::heap::Ranked for CHEntry {
    open spec fn rank(&self) -> int {
        self.score as int
    }

    fn outranks(&self, other: &Self) -> (b: bool) {
        self.score < other.score
    }
}

/// Whether the way from `from` through `src` and on over `f` needs a
/// shortcut, when the best way round is known to cost `cost`: the two links
/// lead to different nodes other than `src`, their joint cost fits a link,
/// and the way round costs more.
pub open spec fn takes(src: IdxNodeKey, from: LinkView, f: LinkView, cost: u32) -> bool {
    &&& f.to != from.to
    &&& f.to != src.0
    &&& from.to != src.0
    &&& from.cost + f.cost < COST_SPAN
    &&& cost > from.cost + f.cost
}

/// The shortcut for the way from `from` through `src` and on over `f`.
pub open spec fn shortcut_of(src: IdxNodeKey, from: LinkView, f: LinkView) -> CHContraction {
    CHContraction {
        snode_idx: IdxNodeKey(from.to as u32),
        enode_idx: IdxNodeKey(f.to as u32),
        mnode_idx: src,
        length: (from.cost + f.cost) as u32,
    }
}

/// The shortcuts for the ways from `from` through `src` and on over each of
/// `nb` that needs one, in the order of `nb`.
pub open spec fn picked(
    src: IdxNodeKey,
    from: LinkView,
    nb: Seq<LinkView>,
    costs: Seq<u32>,
) -> Seq<CHContraction>
    decreases nb.len(),
{
    if nb.len() == 0 || costs.len() != nb.len() {
        Seq::empty()
    } else {
        let rest = picked(src, from, nb.drop_last(), costs.drop_last());
        if takes(src, from, nb.last(), costs.last()) {
            rest.push(shortcut_of(src, from, nb.last()))
        } else {
            rest
        }
    }
}

/// The shortcut is that of one of the links, which needs it.
pub open spec fn picked_for(
    src: IdxNodeKey,
    from: LinkView,
    nb: Seq<LinkView>,
    costs: Seq<u32>,
    c: CHContraction,
) -> bool {
    exists|m: int|
        0 <= m < nb.len() && takes(src, from, nb[m], costs[m]) && #[trigger] shortcut_of(
            src,
            from,
            nb[m],
        ) == c
}

/// Each picked shortcut belongs to a link that needs one, and each link that
/// needs one has its shortcut picked.
pub proof fn lemma_picked(src: IdxNodeKey, from: LinkView, nb: Seq<LinkView>, costs: Seq<u32>)
    requires
        costs.len() == nb.len(),
    ensures
        forall|k: int|
            0 <= k < picked(src, from, nb, costs).len() ==> picked_for(
                src,
                from,
                nb,
                costs,
                #[trigger] picked(src, from, nb, costs)[k],
            ),
        forall|m: int|
            0 <= m < nb.len() && takes(src, from, nb[m], costs[m]) ==> exists|k: int|
                0 <= k < picked(src, from, nb, costs).len() && #[trigger] picked(
                    src,
                    from,
                    nb,
                    costs,
                )[k] == shortcut_of(src, from, nb[m]),
    decreases nb.len(),
{
    let all = picked(src, from, nb, costs);
    if nb.len() > 0 {
        let nb0 = nb.drop_last();
        let costs0 = costs.drop_last();
        let rest = picked(src, from, nb0, costs0);
        lemma_picked(src, from, nb0, costs0);
        let last = nb.len() - 1;
        assert forall|k: int| 0 <= k < all.len() implies picked_for(
            src,
            from,
            nb,
            costs,
            #[trigger] all[k],
        ) by {
            if k < rest.len() {
                assert(picked_for(src, from, nb0, costs0, rest[k]));
                let m = choose|m: int|
                    0 <= m < nb0.len() && takes(src, from, nb0[m], costs0[m])
                        && #[trigger] shortcut_of(src, from, nb0[m]) == rest[k];
                assert(nb0[m] == nb[m] && costs0[m] == costs[m]);
                assert(takes(src, from, nb[m], costs[m]) && shortcut_of(src, from, nb[m])
                    == all[k]);
            } else {
                assert(takes(src, from, nb[last], costs[last]) && shortcut_of(src, from, nb[last])
                    == all[k]);
            }
        }
        assert forall|m: int|
            0 <= m < nb.len() && takes(src, from, nb[m], costs[m]) implies exists|k: int|
            0 <= k < all.len() && #[trigger] all[k] == shortcut_of(src, from, nb[m]) by {
            if m < last {
                assert(nb0[m] == nb[m] && costs0[m] == costs[m]);
                let k = choose|k: int|
                    0 <= k < rest.len() && #[trigger] rest[k] == shortcut_of(src, from, nb0[m]);
                assert(all[k] == shortcut_of(src, from, nb[m]));
            } else {
                assert(all[rest.len() as int] == shortcut_of(src, from, nb[m]));
            }
        }
    }
}

/// The places of the links of `nb` whose shortcuts are picked, in order.
pub open spec fn picked_at(src: IdxNodeKey, from: LinkView, nb: Seq<LinkView>, costs: Seq<u32>) -> Seq<
    int,
>
    decreases nb.len(),
{
    if nb.len() == 0 || costs.len() != nb.len() {
        Seq::empty()
    } else {
        let rest = picked_at(src, from, nb.drop_last(), costs.drop_last());
        if takes(src, from, nb.last(), costs.last()) {
            rest.push(nb.len() - 1)
        } else {
            rest
        }
    }
}

/// The picked shortcuts are those of the links at the picked places, one
/// for each place, and the places rise.
pub proof fn lemma_picked_at(src: IdxNodeKey, from: LinkView, nb: Seq<LinkView>, costs: Seq<u32>)
    requires
        costs.len() == nb.len(),
    ensures
        picked_at(src, from, nb, costs).len() == picked(src, from, nb, costs).len(),
        picked(src, from, nb, costs).len() <= nb.len(),
        forall|k: int|
            0 <= k < picked_at(src, from, nb, costs).len() ==> 0 <= (#[trigger] picked_at(
                src,
                from,
                nb,
                costs,
            )[k]) < nb.len() && picked(src, from, nb, costs)[k] == shortcut_of(
                src,
                from,
                nb[picked_at(src, from, nb, costs)[k]],
            ) && takes(
                src,
                from,
                nb[picked_at(src, from, nb, costs)[k]],
                costs[picked_at(src, from, nb, costs)[k]],
            ),
        forall|k: int, l: int|
            0 <= k < l < picked_at(src, from, nb, costs).len() ==> (#[trigger] picked_at(
                src,
                from,
                nb,
                costs,
            )[k]) < (#[trigger] picked_at(src, from, nb, costs)[l]),
    decreases nb.len(),
{
    if nb.len() > 0 {
        let nb0 = nb.drop_last();
        let costs0 = costs.drop_last();
        lemma_picked_at(src, from, nb0, costs0);
        let at0 = picked_at(src, from, nb0, costs0);
        let at = picked_at(src, from, nb, costs);
        let all = picked(src, from, nb, costs);
        assert forall|k: int| 0 <= k < at.len() implies 0 <= (#[trigger] at[k]) < nb.len() && all[k]
            == shortcut_of(src, from, nb[at[k]]) && takes(src, from, nb[at[k]], costs[at[k]]) by {
            if k < at0.len() {
                assert(at[k] == at0[k]);
                assert(nb0[at0[k]] == nb[at0[k]]);
                assert(costs0[at0[k]] == costs[at0[k]]);
            }
        }
        assert forall|k: int, l: int| 0 <= k < l < at.len() implies (#[trigger] at[k]) < (
        #[trigger] at[l]) by {
            assert(at[k] == at0[k]);
            if l < at0.len() {
                assert(at[l] == at0[l]);
            }
        }
    }
}

/// The number of links of the list in direction `dir`.
pub open spec fn dir_count(list: Seq<LinkView>, dir: IdxLinkDir) -> nat
    decreases list.len(),
{
    if list.len() == 0 {
        0
    } else if list.last().dir == dir {
        dir_count(list.drop_last(), dir) + 1
    } else {
        dir_count(list.drop_last(), dir)
    }
}

/// No more links of a list have one direction than the list has links.
pub proof fn lemma_dir_count_len(list: Seq<LinkView>, dir: IdxLinkDir)
    ensures
        dir_count(list, dir) <= list.len(),
    decreases list.len(),
{
    if list.len() > 0 {
        lemma_dir_count_len(list.drop_last(), dir);
    }
}

/// The score of a node with at most 40 links whose contraction needs at
/// most 1600 shortcuts and of whose neighbours at most 800 are counted as
/// contracted lies between -2400 and 40.
pub proof fn lemma_score_range(links: int, shortcuts: int, deleted: int)
    requires
        0 <= links <= 40,
        0 <= shortcuts <= 1600,
        0 <= deleted <= 800,
    ensures
        -2400 <= score_of(links, shortcuts, deleted) <= 40,
{
}

/// Each shortcut joins a pair of a `Backward` and a `Forward` link of the
/// list, no two the same pair: the pairs rise, by the `Backward` link first.
pub open spec fn sifted(nb: Seq<LinkView>, out: Seq<CHContraction>) -> bool {
    exists|pairs: Seq<(int, int)>|
        {
            &&& pairs.len() == out.len()
            &&& forall|k: int| 0 <= k < out.len() ==> #[trigger] from_pair(nb, out[k], pairs[k].0, pairs[k].1)
            &&& forall|k: int, l: int|
                0 <= k < l < pairs.len() ==> (#[trigger] pairs[k]).0 < (#[trigger] pairs[l]).0 || (
                pairs[k].0 == pairs[l].0 && pairs[k].1 < pairs[l].1)
        }
}

/// Among shortcuts that join pairs of links of a plain list, one per pair,
/// no two join the same nodes.
pub proof fn lemma_sifted_distinct(nb: Seq<LinkView>, out: Seq<CHContraction>, k: int, l: int)
    requires
        crate::contraction::plain_list(nb),
        sifted(nb, out),
        0 <= k < l < out.len(),
    ensures
        out[k].snode_idx != out[l].snode_idx || out[k].enode_idx != out[l].enode_idx,
{
    let pairs = choose|pairs: Seq<(int, int)>|
        {
            &&& pairs.len() == out.len()
            &&& forall|k: int| 0 <= k < out.len() ==> #[trigger] from_pair(nb, out[k], pairs[k].0, pairs[k].1)
            &&& forall|k: int, l: int|
                0 <= k < l < pairs.len() ==> (#[trigger] pairs[k]).0 < (#[trigger] pairs[l]).0 || (
                pairs[k].0 == pairs[l].0 && pairs[k].1 < pairs[l].1)
        };
    assert(from_pair(nb, out[k], pairs[k].0, pairs[k].1));
    assert(from_pair(nb, out[l], pairs[l].0, pairs[l].1));
    assert(pairs[k].0 < pairs[l].0 || (pairs[k].0 == pairs[l].0 && pairs[k].1 < pairs[l].1));
    if out[k].snode_idx == out[l].snode_idx && out[k].enode_idx == out[l].enode_idx {
        if pairs[k].0 < pairs[l].0 {
            crate::contraction::lemma_two_aims(
                nb,
                pairs[k].0,
                pairs[l].0,
                nb[pairs[k].0].to,
                IdxLinkDir::Backward,
            );
            assert(crate::adjacency::costs_to(nb, nb[pairs[k].0].to, IdxLinkDir::Backward).len() <= 1);
        } else {
            crate::contraction::lemma_two_aims(
                nb,
                pairs[k].1,
                pairs[l].1,
                nb[pairs[k].1].to,
                IdxLinkDir::Forward,
            );
            assert(crate::adjacency::costs_to(nb, nb[pairs[k].1].to, IdxLinkDir::Forward).len() <= 1);
        }
    }
}

/// The shortcut stands for the arc from `s` to `e` of cost `len`.
pub open spec fn spans(c: CHContraction, s: int, e: int, len: int) -> bool {
    c.snode_idx.0 == s && c.enode_idx.0 == e && c.length == len
}

/// The shortcut joins the `Backward` link `b` and the `Forward` link `f` of
/// the list.
pub open spec fn from_pair(nb: Seq<LinkView>, c: CHContraction, b: int, f: int) -> bool {
    &&& 0 <= b < nb.len()
    &&& 0 <= f < nb.len()
    &&& nb[b].dir == IdxLinkDir::Backward
    &&& nb[f].dir == IdxLinkDir::Forward
    &&& spans(c, nb[b].to, nb[f].to, nb[b].cost + nb[f].cost)
}

/// The shortcut runs through `src` between two different nodes other than
/// `src`, joining a `Backward` and a `Forward` link of the list, and its
/// cost fits a link.
pub open spec fn via_shape(nb: Seq<LinkView>, src: IdxNodeKey, c: CHContraction) -> bool {
    &&& c.mnode_idx == src
    &&& c.snode_idx != c.enode_idx
    &&& c.snode_idx != src
    &&& c.enode_idx != src
    &&& c.length < COST_SPAN
    &&& exists|b: int, f: int| #[trigger] from_pair(nb, c, b, f)
}

/// The way from `s` to `e` at cost `len` is served: by one of the shortcuts,
/// or by a way round `src` that costs no more.
pub open spec fn served(
    adj: Seq<Seq<LinkView>>,
    src: IdxNodeKey,
    out: Seq<CHContraction>,
    s: int,
    e: int,
    len: int,
) -> bool {
    ||| exists|k: int| 0 <= k < out.len() && spans(#[trigger] out[k], s, e, len)
    ||| exists|c: int| c <= len && #[trigger] reaches(without(adj, Some(src)), s, e, c)
}

/// The `Backward` link `b` and the `Forward` link `f` of the list make a way
/// through `src` that may need a shortcut.
pub open spec fn open_pair(nb: Seq<LinkView>, src: IdxNodeKey, b: int, f: int) -> bool {
    &&& 0 <= b < nb.len()
    &&& 0 <= f < nb.len()
    &&& nb[b].dir == IdxLinkDir::Backward
    &&& nb[f].dir == IdxLinkDir::Forward
    &&& nb[b].to != nb[f].to
    &&& nb[b].to != src.0
    &&& nb[f].to != src.0
    &&& nb[b].cost + nb[f].cost < COST_SPAN
}

/// No shortcut stands beside an arc between the same nodes that costs less.
pub open spec fn lean(adj: Seq<Seq<LinkView>>, out: Seq<CHContraction>) -> bool {
    forall|k: int, c: int|
        0 <= k < out.len() && #[trigger] has_link(
            adj[out[k].enode_idx.0 as int],
            out[k].snode_idx.0 as int,
            c,
            IdxLinkDir::Backward,
        ) ==> out[k].length <= c
}

/// The most links that a node may have for the witness search to see every
/// way round of two links from it: any number at hop limit 1, where the ways
/// are looked up, and as many as the search may add entries beyond that.
pub open spec fn rows_seen(hop_limit: u16) -> int {
    if hop_limit == 1 {
        usize::MAX as int
    } else {
        crate::witness::WITNESS_HEAP_LIMIT as int
    }
}

/// No shortcut from a node with at most `rows` links stands beside a way
/// round `src` of two links that costs less.
pub open spec fn lean_two(
    adj: Seq<Seq<LinkView>>,
    src: IdxNodeKey,
    out: Seq<CHContraction>,
    rows: int,
) -> bool {
    forall|k: int, x: int, c1: int, c2: int|
        0 <= k < out.len() && x != src.0 && adj[out[k].snode_idx.0 as int].len() <= rows
            && #[trigger] has_link(
            adj[out[k].snode_idx.0 as int],
            x,
            c1,
            IdxLinkDir::Forward,
        ) && #[trigger] has_link(adj[out[k].enode_idx.0 as int], x, c2, IdxLinkDir::Backward)
            ==> out[k].length <= c1 + c2
}

/// The shortcuts picked by costs among which every way round of two links
/// below `top` is seen stand beside no cheaper way round of two links.
pub proof fn lemma_picked_lean_two(
    adj: Seq<Seq<LinkView>>,
    src: IdxNodeKey,
    from: LinkView,
    nb: Seq<LinkView>,
    top: int,
    costs: Seq<u32>,
    rows: int,
)
    requires
        costs.len() == nb.len(),
        0 <= from.to < 0x1_0000_0000,
        0 <= from.cost,
        forall|m: int|
            0 <= m < nb.len() ==> 0 <= (#[trigger] nb[m]).to < 0x1_0000_0000 && 0 <= nb[m].cost,
        adj[from.to].len() <= rows ==> crate::witness::two_seen(
            adj,
            src,
            from.to,
            nb,
            top,
            costs,
        ),
        forall|m: int|
            0 <= m < nb.len() && from.cost + (#[trigger] nb[m]).cost < COST_SPAN ==> from.cost + nb[m].cost
                <= top,
    ensures
        lean_two(adj, src, picked(src, from, nb, costs), rows),
{
    let out = picked(src, from, nb, costs);
    lemma_picked(src, from, nb, costs);
    assert forall|k: int, x: int, c1: int, c2: int|
        0 <= k < out.len() && x != src.0 && adj[out[k].snode_idx.0 as int].len() <= rows
            && #[trigger] has_link(
            adj[out[k].snode_idx.0 as int],
            x,
            c1,
            IdxLinkDir::Forward,
        ) && #[trigger] has_link(
            adj[out[k].enode_idx.0 as int],
            x,
            c2,
            IdxLinkDir::Backward,
        ) implies out[k].length <= c1 + c2 by {
        assert(picked_for(src, from, nb, costs, out[k]));
        let m = choose|m: int|
            0 <= m < nb.len() && takes(src, from, nb[m], costs[m]) && #[trigger] shortcut_of(
                src,
                from,
                nb[m],
            ) == out[k];
        assert(0 <= nb[m].to < 0x1_0000_0000);
        if c1 + c2 < from.cost + nb[m].cost {
            assert(has_link(adj[from.to], x, c1, IdxLinkDir::Forward));
            assert(has_link(adj[nb[m].to], x, c2, IdxLinkDir::Backward));
            assert(costs[m] <= c1 + c2);
        }
    }
}

/// The shortcuts picked by costs among which every straight arc below `top`
/// is seen stand beside no cheaper arc, where `top` is no less than the
/// cost of any way through `src`.
pub proof fn lemma_picked_lean(
    adj: Seq<Seq<LinkView>>,
    src: IdxNodeKey,
    from: LinkView,
    nb: Seq<LinkView>,
    top: int,
    costs: Seq<u32>,
)
    requires
        costs.len() == nb.len(),
        0 <= from.to < 0x1_0000_0000,
        0 <= from.cost,
        forall|m: int|
            0 <= m < nb.len() ==> 0 <= (#[trigger] nb[m]).to < 0x1_0000_0000 && 0 <= nb[m].cost,
        direct_seen(adj, from.to, nb, top, costs),
        forall|m: int|
            0 <= m < nb.len() && from.cost + (#[trigger] nb[m]).cost < COST_SPAN ==> from.cost + nb[m].cost
                <= top,
    ensures
        lean(adj, picked(src, from, nb, costs)),
{
    let out = picked(src, from, nb, costs);
    lemma_picked(src, from, nb, costs);
    assert forall|k: int, c: int|
        0 <= k < out.len() && #[trigger] has_link(
            adj[out[k].enode_idx.0 as int],
            out[k].snode_idx.0 as int,
            c,
            IdxLinkDir::Backward,
        ) implies out[k].length <= c by {
        assert(picked_for(src, from, nb, costs, out[k]));
        let m = choose|m: int|
            0 <= m < nb.len() && takes(src, from, nb[m], costs[m]) && #[trigger] shortcut_of(
                src,
                from,
                nb[m],
            ) == out[k];
        assert(0 <= nb[m].to < 0x1_0000_0000);
        if c < from.cost + nb[m].cost {
            assert(has_link(adj[nb[m].to], from.to, c, IdxLinkDir::Backward));
            assert(costs[m] <= c);
        }
    }
}

/// `out` holds shortcuts through `src` only, and every way through `src`
/// over two of its links `nb` is served.
pub open spec fn necessary(
    adj: Seq<Seq<LinkView>>,
    src: IdxNodeKey,
    nb: Seq<LinkView>,
    out: Seq<CHContraction>,
) -> bool {
    &&& forall|k: int| 0 <= k < out.len() ==> via_shape(nb, src, #[trigger] out[k])
    &&& forall|b: int, f: int| #[trigger]
        open_pair(nb, src, b, f) ==> served(
            adj,
            src,
            out,
            nb[b].to,
            nb[f].to,
            nb[b].cost + nb[f].cost,
        )
}

/// What is served by some shortcuts is served by more.
pub proof fn lemma_served_more(
    adj: Seq<Seq<LinkView>>,
    src: IdxNodeKey,
    out: Seq<CHContraction>,
    more: Seq<CHContraction>,
    s: int,
    e: int,
    len: int,
)
    requires
        served(adj, src, out, s, e, len),
    ensures
        served(adj, src, out + more, s, e, len),
{
    if exists|k: int| 0 <= k < out.len() && spans(#[trigger] out[k], s, e, len) {
        let k = choose|k: int| 0 <= k < out.len() && spans(#[trigger] out[k], s, e, len);
        assert((out + more)[k] == out[k]);
        assert(spans((out + more)[k], s, e, len));
    }
}

/// The score of a node with `links` links whose contraction needs
/// `shortcuts` shortcuts and of whose neighbours `deleted` are contracted:
/// the difference, kept within `i32`.
pub open spec fn score_of(links: int, shortcuts: int, deleted: int) -> i32 {
    let raw = links - shortcuts - deleted;
    if raw < i32::MIN {
        i32::MIN
    } else if raw > i32::MAX {
        i32::MAX
    } else {
        raw as i32
    }
}

/// The score for the given counts.
pub fn score(links: usize, shortcuts: usize, deleted: u16) -> (s: i32)
    ensures
        s == score_of(links as int, shortcuts as int, deleted as int),
{
    let raw: i128 = links as i128 - shortcuts as i128 - deleted as i128;
    if raw < i32::MIN as i128 {
        i32::MIN
    } else if raw > i32::MAX as i128 {
        i32::MAX
    } else {
        raw as i32
    }
}

/// The shortcuts for the ways from `from_link` through `src` and on over
/// each of `neighbors`, given the cost of the best way round for each.
pub fn shortcuts_from(
    src: IdxNodeKey,
    from_link: IdxLink,
    neighbors: &[IdxLink],
    costs: &Vec<u32>,
) -> (out: Vec<CHContraction>)
    requires
        costs@.len() == neighbors@.len(),
    ensures
        out@ == picked(src, from_link@, links_view(neighbors@), costs@),
{
    let ghost nb = links_view(neighbors@);
    // add contractions
    let mut contractions: Vec<CHContraction> = Vec::new();
    let mut i: usize = 0;
    assert(nb.take(0) =~= Seq::<LinkView>::empty());
    while i < neighbors.len()
        invariant
            nb == links_view(neighbors@),
            costs@.len() == neighbors@.len(),
            i <= neighbors.len(),
            contractions@ == picked(src, from_link@, nb.take(i as int), costs@.take(i as int)),
        decreases neighbors.len() - i,
    {
        let link = neighbors[i];
        proof {
            assert(link@ == nb[i as int]);
            assert(nb.take(i + 1).drop_last() =~= nb.take(i as int));
            assert(costs@.take(i + 1).drop_last() =~= costs@.take(i as int));
            assert(nb.take(i + 1).last() == nb[i as int]);
            assert(costs@.take(i + 1).last() == costs@[i as int]);
        }
        let to_key = link.enode_idx();
        let from_key = from_link.enode_idx();
        if from_key.0 != to_key.0 && to_key.0 != src.0 && from_key.0 != src.0 {
            let to_cost = link.cost();
            let cost = costs[i];
            // cost == u32::MAX if dijkstra search failed to find route within limit, which
            // means that a route via 'src' is shortest one so we should add contraction.
            // Same when cost > dist1 + dist2
            let via_cost = from_link.cost() + to_cost;
            if via_cost < COST_SPAN && cost > via_cost {
                let c = CHContraction {
                    snode_idx: from_key,
                    enode_idx: to_key,
                    mnode_idx: src,
                    length: via_cost,
                };
                assert(c == shortcut_of(src, from_link@, nb[i as int]));
                contractions.push(c);
            }
        }
        i += 1;
    }
    proof {
        assert(nb.take(neighbors.len() as int) =~= nb);
        assert(costs@.take(neighbors.len() as int) =~= costs@);
    }
    contractions
}

impl<'a> CH<'a> {
    /// The shortcuts that the ways from `from_link` through `src` and on
    /// over each of `neighbors` need, by the witness search. With a hop limit
    /// of 1 every way round of one or two links costs more than the shortcut
    /// beside it, and every way without a shortcut has such a way round
    /// that costs no more.
    pub fn dijkstra_contract_from(
        &self,
        src: IdxNodeKey,
        from_link: IdxLink,
        neighbors: &[IdxLink],
        hop_limit: u16,
    ) -> (out: Vec<CHContraction>)
        requires
            self.wf(),
            src.0 < self.adj().len(),
            from_link@.to < self.adj().len(),
            targets_within(links_view(neighbors@), self.adj().len() as int),
            hop_limit >= 1,
            paired_off(self.adj(), src.0 as int),
        ensures
            exists|costs: Seq<u32>|
                witnessed(self.adj(), src, from_link@.to, links_view(neighbors@), costs) && out@
                    == #[trigger] picked(src, from_link@, links_view(neighbors@), costs),
            lean(self.adj(), out@),
            lean_two(self.adj(), src, out@, rows_seen(hop_limit)),
            hop_limit == 1 ==> spare(self.adj(), src, out@) && near_from(
                self.adj(),
                src,
                from_link@,
                links_view(neighbors@),
                out@,
            ),
    {
        if neighbors.len() == 0 || from_link.enode_idx().0 == src.0 {
            let out: Vec<CHContraction> = Vec::new();
            proof {
                let nb = links_view(neighbors@);
                let costs = Seq::new(nb.len(), |i: int| u32::MAX);
                assert(witnessed(self.adj(), src, from_link@.to, nb, costs));
                lemma_picked(src, from_link@, nb, costs);
                assert(picked(src, from_link@, nb, costs).len() == 0) by {
                    if picked(src, from_link@, nb, costs).len() > 0 {
                        assert(picked_for(
                            src,
                            from_link@,
                            nb,
                            costs,
                            picked(src, from_link@, nb, costs)[0],
                        ));
                    }
                }
                assert(out@ =~= picked(src, from_link@, nb, costs));
            }
            return out;
        }

        let costs = self.dijkstra_contract_dist_backward2(src, from_link, neighbors, hop_limit);
        proof {
            let nb = links_view(neighbors@);
            let top = if hop_limit == 1 {
                COST_SPAN as int
            } else {
                from_link@.cost + dearest(nb)
            };
            assert forall|m: int|
                0 <= m < nb.len() && from_link@.cost + (#[trigger] nb[m]).cost
                    < COST_SPAN implies from_link@.cost + nb[m].cost <= top by {
                lemma_dearest(nb, m);
            }
            crate::network::lemma_repack_keeps_dir(from_link.word(), 0);
            assert forall|m: int| 0 <= m < nb.len() implies 0 <= (#[trigger] nb[m]).to
                < 0x1_0000_0000 && 0 <= nb[m].cost by {
                assert(nb[m] == neighbors@[m]@);
                crate::network::lemma_repack_keeps_dir(neighbors@[m].word(), 0);
            }
            lemma_picked_lean(self.adj(), src, from_link@, nb, top, costs@);
            let wide = if hop_limit == 1 {
                0x8000_0000int
            } else {
                top
            };
            lemma_picked_lean_two(
                self.adj(),
                src,
                from_link@,
                nb,
                wide,
                costs@,
                rows_seen(hop_limit),
            );
            if hop_limit == 1 {
                lemma_picked_near(self.adj(), src, from_link@, nb, costs@);
            }
        }
        shortcuts_from(src, from_link, neighbors, &costs)
    }

    /// The shortcuts that the contraction of `src`, whose links are
    /// `neighbors`, needs: one for each way over a `Backward` and a `Forward`
    /// link for which the witness search finds no way round that costs no
    /// more. With a hop limit of 1, where the ways round are looked up, these
    /// are exactly the ways that no way round of one or two links matches
    /// in cost.
    pub fn dijkstra_contract(&self, src: IdxNodeKey, neighbors: &[IdxLink], hop_limit: u16) -> (out:
        Vec<CHContraction>)
        requires
            self.wf(),
            src.0 < self.adj().len(),
            targets_within(links_view(neighbors@), self.adj().len() as int),
            hop_limit >= 1,
            paired_off(self.adj(), src.0 as int),
        ensures
            necessary(self.adj(), src, links_view(neighbors@), out@),
            lean(self.adj(), out@),
            lean_two(self.adj(), src, out@, rows_seen(hop_limit)),
            sifted(links_view(neighbors@), out@),
            out@.len() <= dir_count(links_view(neighbors@), IdxLinkDir::Backward) * dir_count(
                links_view(neighbors@),
                IdxLinkDir::Forward,
            ),
            hop_limit == 1 ==> spare(self.adj(), src, out@) && nearly(
                self.adj(),
                src,
                links_view(neighbors@),
                out@,
            ),
    {
        let ghost adj = self.adj();
        let ghost nb = links_view(neighbors@);
        let mut contractions: Vec<CHContraction> = Vec::new();
        assert(nb.take(0) =~= Seq::<LinkView>::empty());
        let mut forward_links: Vec<IdxLink> = Vec::with_capacity(neighbors.len());
        let ghost mut origin: Seq<int> = Seq::empty();
        let mut j: usize = 0;
        while j < neighbors.len()
            invariant
                nb == links_view(neighbors@),
                targets_within(nb, adj.len() as int),
                j <= neighbors.len(),
                origin.len() == forward_links@.len(),
                forall|m: int|
                    0 <= m < origin.len() ==> 0 <= (#[trigger] origin[m]) < j && nb[origin[m]]
                        == forward_links@[m]@ && nb[origin[m]].dir == IdxLinkDir::Forward,
                forall|f: int|
                    0 <= f < j && (#[trigger] nb[f]).dir == IdxLinkDir::Forward && nb[f].to
                        != src.0 ==> exists|m: int|
                        0 <= m < origin.len() && #[trigger] origin[m] == f,
                forall|m: int, l: int|
                    0 <= m < l < origin.len() ==> (#[trigger] origin[m]) < (#[trigger] origin[l]),
                origin.len() <= dir_count(nb.take(j as int), IdxLinkDir::Forward),
            decreases neighbors.len() - j,
        {
            let forward_link = neighbors[j];
            assert(forward_link@ == nb[j as int]);
            proof {
                assert(nb.take(j + 1).drop_last() =~= nb.take(j as int));
                assert(nb.take(j + 1).last() == nb[j as int]);
            }
            if forward_link.dir() == IdxLinkDir::Forward && forward_link.enode_idx().0 != src.0 {
                forward_links.push(forward_link);
                proof {
                    let before = origin;
                    origin = origin.push(j as int);
                    assert forall|f: int|
                        0 <= f < j + 1 && (#[trigger] nb[f]).dir == IdxLinkDir::Forward && nb[f].to
                            != src.0 implies exists|m: int|
                        0 <= m < origin.len() && #[trigger] origin[m] == f by {
                        if f < j {
                            let m = choose|m: int| 0 <= m < before.len() && #[trigger] before[m] == f;
                            assert(origin[m] == f);
                        } else {
                            assert(origin[before.len() as int] == f);
                        }
                    }
                }
            }
            j += 1;
        }
        let ghost fl = links_view(forward_links@);
        let ghost mut pairs: Seq<(int, int)> = Seq::empty();
        let ghost fronts = dir_count(nb, IdxLinkDir::Forward);
        proof {
            assert(nb.take(neighbors.len() as int) =~= nb);
            assert forall|m: int| 0 <= m < fl.len() implies 0 <= (#[trigger] fl[m]).to
                < adj.len() by {
                assert(fl[m] == nb[origin[m]]);
            }
        }
        let mut i: usize = 0;
        while i < neighbors.len()
            invariant
                self.wf(),
                adj == self.adj(),
                src.0 < adj.len(),
                hop_limit >= 1,
                paired_off(adj, src.0 as int),
                nb == links_view(neighbors@),
                targets_within(nb, adj.len() as int),
                fl == links_view(forward_links@),
                targets_within(fl, adj.len() as int),
                i <= neighbors.len(),
                origin.len() == fl.len(),
                forall|m: int|
                    0 <= m < origin.len() ==> 0 <= (#[trigger] origin[m]) < nb.len()
                        && nb[origin[m]] == fl[m] && nb[origin[m]].dir == IdxLinkDir::Forward,
                forall|f: int|
                    0 <= f < nb.len() && (#[trigger] nb[f]).dir == IdxLinkDir::Forward && nb[f].to
                        != src.0 ==> exists|m: int|
                        0 <= m < origin.len() && #[trigger] origin[m] == f,
                forall|k: int|
                    0 <= k < contractions@.len() ==> via_shape(nb, src, #[trigger] contractions@[k]),
                lean(adj, contractions@),
                lean_two(adj, src, contractions@, rows_seen(hop_limit)),
                hop_limit == 1 ==> spare(adj, src, contractions@) && nearly_upto(
                    adj,
                    src,
                    nb,
                    contractions@,
                    i as int,
                ),
                forall|m: int, l: int|
                    0 <= m < l < origin.len() ==> (#[trigger] origin[m]) < (#[trigger] origin[l]),
                fronts == dir_count(nb, IdxLinkDir::Forward),
                fl.len() <= fronts,
                contractions@.len() <= dir_count(nb.take(i as int), IdxLinkDir::Backward) * fronts,
                pairs.len() == contractions@.len(),
                forall|k: int|
                    0 <= k < pairs.len() ==> from_pair(
                        nb,
                        contractions@[k],
                        (#[trigger] pairs[k]).0,
                        pairs[k].1,
                    ) && pairs[k].0 < i,
                forall|k: int, l: int|
                    0 <= k < l < pairs.len() ==> (#[trigger] pairs[k]).0 < (#[trigger] pairs[l]).0 || (
                    pairs[k].0 == pairs[l].0 && pairs[k].1 < pairs[l].1),
                forall|b: int, f: int|
                    b < i && #[trigger] open_pair(nb, src, b, f) ==> served(
                        adj,
                        src,
                        contractions@,
                        nb[b].to,
                        nb[f].to,
                        nb[b].cost + nb[f].cost,
                    ),
            decreases neighbors.len() - i,
        {
            let link = neighbors[i];
            assert(link@ == nb[i as int]);
            proof {
                assert(nb.take(i + 1).drop_last() =~= nb.take(i as int));
                assert(nb.take(i + 1).last() == nb[i as int]);
                let a = dir_count(nb.take(i as int), IdxLinkDir::Backward);
                assert(a * fronts <= (a + 1) * fronts) by (nonlinear_arith);
            }
            if link.dir() == IdxLinkDir::Backward && link.enode_idx().0 != src.0 {
                let mut v = self.dijkstra_contract_from(
                    src,
                    link,
                    forward_links.as_slice(),
                    hop_limit,
                );
                let ghost before = contractions@;
                let ghost part = v@;
                contractions.append(&mut v);
                proof {
                    if hop_limit == 1 {
                        lemma_near_joined(adj, src, nb, fl, origin, before, part, i as int);
                    }
                }
                proof {
                    let from = nb[i as int];
                    let costs = choose|costs: Seq<u32>|
                        witnessed(adj, src, from.to, fl, costs) && part == #[trigger] picked(
                            src,
                            from,
                            fl,
                            costs,
                        );
                    lemma_picked(src, from, fl, costs);
                    assert(contractions@ == before + part);
                    lemma_picked_at(src, from, fl, costs);
                    let at = picked_at(src, from, fl, costs);
                    let old_pairs = pairs;
                    pairs = old_pairs + Seq::new(part.len(), |k: int| (i as int, origin[at[k]]));
                    assert forall|k: int| 0 <= k < pairs.len() implies from_pair(
                        nb,
                        contractions@[k],
                        (#[trigger] pairs[k]).0,
                        pairs[k].1,
                    ) && pairs[k].0 < i + 1 by {
                        if k < before.len() {
                            assert(contractions@[k] == before[k]);
                            assert(pairs[k] == old_pairs[k]);
                            assert(from_pair(nb, before[k], old_pairs[k].0, old_pairs[k].1));
                        } else {
                            let r = k - before.len();
                            assert(contractions@[k] == part[r]);
                            assert(pairs[k] == (i as int, origin[at[r]]));
                            assert(part[r] == shortcut_of(src, from, fl[at[r]]));
                            assert(takes(src, from, fl[at[r]], costs[at[r]]));
                            assert(fl[at[r]] == nb[origin[at[r]]]);
                            assert(from_pair(nb, part[r], i as int, origin[at[r]]));
                        }
                    }
                    assert forall|k: int, l: int| 0 <= k < l < pairs.len() implies (#[trigger] pairs[k]).0
                        < (#[trigger] pairs[l]).0 || (pairs[k].0 == pairs[l].0 && pairs[k].1
                        < pairs[l].1) by {
                        if l < before.len() {
                            assert(pairs[k] == old_pairs[k] && pairs[l] == old_pairs[l]);
                        } else if k < before.len() {
                            assert(pairs[k] == old_pairs[k]);
                            assert(from_pair(nb, before[k], old_pairs[k].0, old_pairs[k].1)
                                && old_pairs[k].0 < i);
                        } else {
                            let rk = k - before.len();
                            let rl = l - before.len();
                            assert(at[rk] < at[rl]);
                            assert(origin[at[rk]] < origin[at[rl]]);
                        }
                    }
                    let a = dir_count(nb.take(i as int), IdxLinkDir::Backward);
                    assert(part.len() <= fl.len());
                    assert((a + 1) * fronts == a * fronts + fronts) by (nonlinear_arith);
                    assert forall|k: int, c: int|
                        0 <= k < contractions@.len() && #[trigger] has_link(
                            adj[contractions@[k].enode_idx.0 as int],
                            contractions@[k].snode_idx.0 as int,
                            c,
                            IdxLinkDir::Backward,
                        ) implies contractions@[k].length <= c by {
                        if k < before.len() {
                            assert(contractions@[k] == before[k]);
                        } else {
                            assert(contractions@[k] == part[k - before.len()]);
                        }
                    }
                    {
                        assert forall|k: int, x: int, c1: int, c2: int|
                            0 <= k < contractions@.len() && x != src.0
                                && adj[contractions@[k].snode_idx.0 as int].len() <= rows_seen(
                                hop_limit,
                            ) && #[trigger] has_link(
                                adj[contractions@[k].snode_idx.0 as int],
                                x,
                                c1,
                                IdxLinkDir::Forward,
                            ) && #[trigger] has_link(
                                adj[contractions@[k].enode_idx.0 as int],
                                x,
                                c2,
                                IdxLinkDir::Backward,
                            ) implies contractions@[k].length <= c1 + c2 by {
                            if k < before.len() {
                                assert(contractions@[k] == before[k]);
                            } else {
                                assert(contractions@[k] == part[k - before.len()]);
                            }
                        }
                    }
                    assert forall|k: int| 0 <= k < contractions@.len() implies via_shape(
                        nb,
                        src,
                        #[trigger] contractions@[k],
                    ) by {
                        if k < before.len() {
                            assert(contractions@[k] == before[k]);
                        } else {
                            let c = part[k - before.len()];
                            assert(contractions@[k] == c);
                            assert(picked_for(src, from, fl, costs, c));
                            let m = choose|m: int|
                                0 <= m < fl.len() && takes(src, from, fl[m], costs[m])
                                    && #[trigger] shortcut_of(src, from, fl[m]) == c;
                            assert(from_pair(nb, c, i as int, origin[m]));
                        }
                    }
                    assert forall|b: int, f: int|
                        b < i + 1 && #[trigger] open_pair(nb, src, b, f) implies served(
                        adj,
                        src,
                        contractions@,
                        nb[b].to,
                        nb[f].to,
                        nb[b].cost + nb[f].cost,
                    ) by {
                        if b < i {
                            lemma_served_more(
                                adj,
                                src,
                                before,
                                part,
                                nb[b].to,
                                nb[f].to,
                                nb[b].cost + nb[f].cost,
                            );
                        } else {
                            let m = choose|m: int| 0 <= m < origin.len() && #[trigger] origin[m] == f;
                            assert(fl[m] == nb[f]);
                            let via = from.cost + nb[f].cost;
                            if takes(src, from, fl[m], costs[m]) {
                                let k = choose|k: int|
                                    0 <= k < part.len() && #[trigger] part[k] == shortcut_of(
                                        src,
                                        from,
                                        fl[m],
                                    );
                                assert(contractions@[before.len() + k] == part[k]);
                                assert(spans(
                                    contractions@[before.len() + k],
                                    nb[b].to,
                                    nb[f].to,
                                    via,
                                ));
                            } else {
                                assert(costs[m] <= via);
                                assert(reaches(
                                    without(adj, Some(src)),
                                    from.to,
                                    fl[m].to,
                                    costs[m] as int,
                                ));
                            }
                        }
                    }
                }
            } else {
                proof {
                    if hop_limit == 1 {
                        lemma_near_kept(adj, src, nb, contractions@, i as int);
                    }
                    assert forall|b: int, f: int|
                        b < i + 1 && #[trigger] open_pair(nb, src, b, f) implies served(
                        adj,
                        src,
                        contractions@,
                        nb[b].to,
                        nb[f].to,
                        nb[b].cost + nb[f].cost,
                    ) by {
                        assert(b < i);
                    }
                }
            }
            i += 1;
        }
        proof {
            assert(nb.take(neighbors.len() as int) =~= nb);
            assert forall|k: int| 0 <= k < contractions@.len() implies #[trigger] from_pair(
                nb,
                contractions@[k],
                pairs[k].0,
                pairs[k].1,
            ) by {
                assert(pairs[k].0 < i);
            }
        }
        contractions
    }

    /// The queue entry of node `key`: its links less the shortcuts that its
    /// contraction needs less its contracted neighbours.
    pub fn heap_entry(&self, key: IdxNodeKey, deleted_count: &[u16], hop_limit: u16) -> (e: CHEntry)
        requires
            self.wf(),
            key.0 < self.adj().len(),
            deleted_count@.len() == self.adj().len(),
            hop_limit >= 1,
            paired_off(self.adj(), key.0 as int),
        ensures
            e.key == key,
            exists|out: Seq<CHContraction>| #[trigger]
                necessary(self.adj(), key, self.adj()[key.0 as int], out) && e.score == score_of(
                    self.adj()[key.0 as int].len() as int,
                    out.len() as int,
                    deleted_count@[key.0 as int] as int,
                ) && out.len() <= dir_count(self.adj()[key.0 as int], IdxLinkDir::Backward)
                    * dir_count(self.adj()[key.0 as int], IdxLinkDir::Forward),
    {
        let idx = key.index();
        let neighbors = self.contractions[idx].as_slice();
        proof {
            assert(targets_within(self.adj()[idx as int], self.adj().len() as int));
        }
        let contractions = self.dijkstra_contract(key, neighbors, hop_limit);
        let score = score(neighbors.len(), contractions.len(), deleted_count[idx]);
        proof {
            assert(score == score_of(
                self.adj()[key.0 as int].len() as int,
                contractions@.len() as int,
                deleted_count@[key.0 as int] as int,
            ));
        }
        CHEntry { score, key }
    }
}

} // verus!
