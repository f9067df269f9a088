//! The shortcuts of a contraction at hop limit 1, where the ways round are
//! looked up: a way through the node gets a shortcut if and only if no way
//! round of one or two links costs as little.

use crate::adjacency::has_link;
use crate::network::{IdxLinkDir, IdxNodeKey, LinkView, COST_SPAN};
use crate::scoring::{
    lemma_picked, open_pair, picked, picked_for, shortcut_of, spans, takes,
};
use crate::shortcut::CHContraction;
use crate::witness::{direct_seen, near, short_way, two_seen};
use vstd::prelude::*;

verus! {

/// Every way round `src` of one or two links between the ends of a shortcut
/// costs more than the shortcut.
pub open spec fn spare(adj: Seq<Seq<LinkView>>, src: IdxNodeKey, out: Seq<CHContraction>) -> bool {
    forall|k: int, c: int|
        0 <= k < out.len() && #[trigger] short_way(
            adj,
            src,
            out[k].snode_idx.0 as int,
            out[k].enode_idx.0 as int,
            c,
        ) ==> out[k].length < c
}

/// The way from `s` to `e` at cost `len` is served at hand: by one of the
/// shortcuts, or by a way round `src` of one or two links that costs no
/// more.
pub open spec fn served_near(
    adj: Seq<Seq<LinkView>>,
    src: IdxNodeKey,
    out: Seq<CHContraction>,
    s: int,
    e: int,
    len: int,
) -> bool {
    ||| exists|k: int| 0 <= k < out.len() && spans(#[trigger] out[k], s, e, len)
    ||| exists|c: int| c <= len && #[trigger] short_way(adj, src, s, e, c)
}

/// Every way from `from` through `src` and on over one of `nb` that may
/// need a shortcut is served at hand.
pub open spec fn near_from(
    adj: Seq<Seq<LinkView>>,
    src: IdxNodeKey,
    from: LinkView,
    nb: Seq<LinkView>,
    out: Seq<CHContraction>,
) -> bool {
    forall|m: int|
        0 <= m < nb.len() && (#[trigger] nb[m]).to != from.to && nb[m].to != src.0 && from.to
            != src.0 && from.cost + nb[m].cost < COST_SPAN ==> served_near(
            adj,
            src,
            out,
            from.to,
            nb[m].to,
            from.cost + nb[m].cost,
        )
}

/// Every way through `src` over one of the first `upto` links of `nb` and
/// another of its links that may need a shortcut is served at hand.
pub open spec fn nearly_upto(
    adj: Seq<Seq<LinkView>>,
    src: IdxNodeKey,
    nb: Seq<LinkView>,
    out: Seq<CHContraction>,
    upto: int,
) -> bool {
    forall|b: int, f: int|
        b < upto && #[trigger] open_pair(nb, src, b, f) ==> served_near(
            adj,
            src,
            out,
            nb[b].to,
            nb[f].to,
            nb[b].cost + nb[f].cost,
        )
}

/// Every way through `src` over two of its links `nb` that may need a
/// shortcut is served at hand.
pub open spec fn nearly(
    adj: Seq<Seq<LinkView>>,
    src: IdxNodeKey,
    nb: Seq<LinkView>,
    out: Seq<CHContraction>,
) -> bool {
    nearly_upto(adj, src, nb, out, nb.len() as int)
}

/// The shortcuts picked by costs that are each the least of a way round of
/// one or two links leave every such way dearer than the shortcut, and
/// every way without a shortcut served at hand.
pub proof fn lemma_picked_near(
    adj: Seq<Seq<LinkView>>,
    src: IdxNodeKey,
    from: LinkView,
    nb: Seq<LinkView>,
    costs: Seq<u32>,
)
    requires
        costs.len() == nb.len(),
        0 <= from.to < 0x1_0000_0000,
        0 <= from.cost,
        forall|m: int|
            0 <= m < nb.len() ==> 0 <= (#[trigger] nb[m]).to < 0x1_0000_0000 && 0 <= nb[m].cost,
        direct_seen(adj, from.to, nb, COST_SPAN as int, costs),
        two_seen(adj, src, from.to, nb, 0x8000_0000, costs),
        near(adj, src, from.to, nb, costs),
    ensures
        spare(adj, src, picked(src, from, nb, costs)),
        near_from(adj, src, from, nb, picked(src, from, nb, costs)),
{
    let out = picked(src, from, nb, costs);
    lemma_picked(src, from, nb, costs);
    assert forall|k: int, c: int|
        0 <= k < out.len() && #[trigger] short_way(
            adj,
            src,
            out[k].snode_idx.0 as int,
            out[k].enode_idx.0 as int,
            c,
        ) implies out[k].length < c by {
        assert(picked_for(src, from, nb, costs, out[k]));
        let m = choose|m: int|
            0 <= m < nb.len() && takes(src, from, nb[m], costs[m]) && #[trigger] shortcut_of(
                src,
                from,
                nb[m],
            ) == out[k];
        assert(0 <= nb[m].to < 0x1_0000_0000);
        let s = from.to;
        let e = nb[m].to;
        assert(out[k].snode_idx.0 as int == s);
        assert(out[k].enode_idx.0 as int == e);
        if c <= from.cost + nb[m].cost {
            if has_link(adj[e], s, c, IdxLinkDir::Backward) {
                assert(costs[m] <= c);
            } else {
                let (x, c1) = choose|x: int, c1: int|
                    x != src.0 && #[trigger] has_link(adj[s], x, c1, IdxLinkDir::Forward)
                        && has_link(adj[e], x, c - c1, IdxLinkDir::Backward);
                assert(has_link(adj[s], x, c1, IdxLinkDir::Forward) && has_link(
                    adj[nb[m].to],
                    x,
                    c - c1,
                    IdxLinkDir::Backward,
                ));
                assert(costs[m] <= c1 + (c - c1));
            }
        }
    }
    assert forall|m: int|
        0 <= m < nb.len() && (#[trigger] nb[m]).to != from.to && nb[m].to != src.0 && from.to
            != src.0 && from.cost + nb[m].cost < COST_SPAN implies served_near(
        adj,
        src,
        out,
        from.to,
        nb[m].to,
        from.cost + nb[m].cost,
    ) by {
        let via = from.cost + nb[m].cost;
        if takes(src, from, nb[m], costs[m]) {
            let k = choose|k: int|
                0 <= k < out.len() && #[trigger] out[k] == shortcut_of(src, from, nb[m]);
            assert(spans(out[k], from.to, nb[m].to, via));
        } else {
            assert(costs[m] <= via);
            assert(short_way(adj, src, from.to, nb[m].to, costs[m] as int));
        }
    }
}

/// The shortcuts for one more `Backward` link of `nb`, added to those for
/// the links before it, keep every way round dearer than its shortcut and
/// serve at hand the ways over that link too.
pub proof fn lemma_near_joined(
    adj: Seq<Seq<LinkView>>,
    src: IdxNodeKey,
    nb: Seq<LinkView>,
    fl: Seq<LinkView>,
    origin: Seq<int>,
    before: Seq<CHContraction>,
    part: Seq<CHContraction>,
    i: int,
)
    requires
        0 <= i < nb.len(),
        spare(adj, src, before),
        spare(adj, src, part),
        nearly_upto(adj, src, nb, before, i),
        near_from(adj, src, nb[i], fl, part),
        origin.len() == fl.len(),
        forall|m: int|
            0 <= m < origin.len() ==> 0 <= (#[trigger] origin[m]) < nb.len() && nb[origin[m]]
                == fl[m],
        forall|f: int|
            0 <= f < nb.len() && (#[trigger] nb[f]).dir == IdxLinkDir::Forward && nb[f].to
                != src.0 ==> exists|m: int| 0 <= m < origin.len() && #[trigger] origin[m] == f,
    ensures
        spare(adj, src, before + part),
        nearly_upto(adj, src, nb, before + part, i + 1),
{
    let all = before + part;
    assert forall|k: int, c: int|
        0 <= k < all.len() && #[trigger] short_way(
            adj,
            src,
            all[k].snode_idx.0 as int,
            all[k].enode_idx.0 as int,
            c,
        ) implies all[k].length < c by {
        if k < before.len() {
            assert(all[k] == before[k]);
        } else {
            assert(all[k] == part[k - before.len()]);
        }
    }
    assert forall|b: int, f: int| b < i + 1 && #[trigger] open_pair(nb, src, b, f) implies served_near(
        adj,
        src,
        all,
        nb[b].to,
        nb[f].to,
        nb[b].cost + nb[f].cost,
    ) by {
        let s = nb[b].to;
        let e = nb[f].to;
        let len = nb[b].cost + nb[f].cost;
        if b < i {
            assert(served_near(adj, src, before, s, e, len));
            if exists|k: int| 0 <= k < before.len() && spans(#[trigger] before[k], s, e, len) {
                let k = choose|k: int| 0 <= k < before.len() && spans(#[trigger] before[k], s, e, len);
                assert(all[k] == before[k]);
                assert(spans(all[k], s, e, len));
            }
        } else {
            let m = choose|m: int| 0 <= m < origin.len() && #[trigger] origin[m] == f;
            assert(fl[m] == nb[f]);
            assert(served_near(adj, src, part, s, fl[m].to, nb[i].cost + fl[m].cost));
            if exists|k: int| 0 <= k < part.len() && spans(#[trigger] part[k], s, e, len) {
                let k = choose|k: int| 0 <= k < part.len() && spans(#[trigger] part[k], s, e, len);
                assert(all[before.len() + k] == part[k]);
                assert(spans(all[before.len() + k], s, e, len));
            }
        }
    }
}

/// A link that is no `Backward` link to another node starts no way through
/// `src`.
pub proof fn lemma_near_kept(
    adj: Seq<Seq<LinkView>>,
    src: IdxNodeKey,
    nb: Seq<LinkView>,
    out: Seq<CHContraction>,
    i: int,
)
    requires
        0 <= i < nb.len(),
        nearly_upto(adj, src, nb, out, i),
        !(nb[i].dir == IdxLinkDir::Backward && nb[i].to != src.0),
    ensures
        nearly_upto(adj, src, nb, out, i + 1),
{
    assert forall|b: int, f: int| b < i + 1 && #[trigger] open_pair(nb, src, b, f) implies served_near(
        adj,
        src,
        out,
        nb[b].to,
        nb[f].to,
        nb[b].cost + nb[f].cost,
    ) by {
        assert(b < i);
    }
}

/// Where the ways round are looked up, a way through `src` over a
/// `Backward` and a `Forward` link of its has a shortcut if and only if
/// every way round `src` of one or two links between the same nodes costs
/// more.
pub proof fn lemma_shortcut_iff_no_short_way(
    adj: Seq<Seq<LinkView>>,
    src: IdxNodeKey,
    nb: Seq<LinkView>,
    out: Seq<CHContraction>,
    b: int,
    f: int,
)
    requires
        spare(adj, src, out),
        nearly(adj, src, nb, out),
        open_pair(nb, src, b, f),
    ensures
        (exists|k: int|
            0 <= k < out.len() && spans(
                #[trigger] out[k],
                nb[b].to,
                nb[f].to,
                nb[b].cost + nb[f].cost,
            )) <==> (forall|c: int| #[trigger]
            short_way(adj, src, nb[b].to, nb[f].to, c) ==> c > nb[b].cost + nb[f].cost),
{
    let s = nb[b].to;
    let e = nb[f].to;
    let len = nb[b].cost + nb[f].cost;
    if exists|k: int| 0 <= k < out.len() && spans(#[trigger] out[k], s, e, len) {
        let k = choose|k: int| 0 <= k < out.len() && spans(#[trigger] out[k], s, e, len);
        assert forall|c: int| #[trigger] short_way(adj, src, s, e, c) implies c > len by {
            assert(short_way(adj, src, out[k].snode_idx.0 as int, out[k].enode_idx.0 as int, c));
        }
    } else {
        assert(served_near(adj, src, out, s, e, len));
        let c = choose|c: int| c <= len && #[trigger] short_way(adj, src, s, e, c);
        assert(short_way(adj, src, s, e, c) && !(c > len));
    }
}

} // verus!
