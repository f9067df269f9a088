//! A faithful hierarchy answers as its graph does: what a query finds costs
//! what the cheapest way of the graph costs.

use crate::adjacency::lemma_paired_is_mated;
use crate::arcs::lemma_full_row;
use crate::ch::CH;
use crate::faithful::{
    faithful, framed, lemma_full_sane, lemma_meeting_real, real_shortcuts, trim,
};
use crate::network::{IdxLinkDir, IdxNodeKey, LinkView, COST_SPAN};
use crate::paths::{cheapest, cheapest_under, is_way, leads, lemma_adj_of_costs, lemma_way_carries, nodes_of, step};
use crate::query::answers;
use crate::retrace::{
    decomposed, lemma_meeting_chained, lemma_unfolded_walks, walks, walks_within,
};
use crate::search::{meeting, no_cheaper_meeting};
use crate::shortcut::CHContraction;
use crate::updown::{lemma_updown, low, meets_within};
use crate::upward::{full_adj, query_adj};
use crate::witness::reaches;
use vstd::prelude::*;

verus! {

/// A hierarchy that is ready for queries has what the theorems on ways
/// take for granted.
pub proof fn lemma_ready_framed(ch: &CH)
    requires
        ch.ready(),
    ensures
        framed(ch.graph().adj(), ch.shortcuts(), ch.ranks()),
{
    let base = ch.graph().adj();
    lemma_adj_of_costs(ch.graph().idx_links@);
    lemma_paired_is_mated(base);
    assert forall|i: int| 0 <= i < ch.shortcuts().len() implies (#[trigger] ch.shortcuts()[i]).length
        < crate::network::COST_SPAN by {
        assert(crate::hierarchy::shortcut_ok(ch.ranks(), ch.shortcuts()[i]));
    }
}

/// A way of the graph is a way of the graph with the shortcuts.
pub proof fn lemma_way_lifts(
    base: Seq<Seq<LinkView>>,
    shortcuts: Seq<CHContraction>,
    nodes: Seq<int>,
    cost: int,
)
    requires
        is_way(base, IdxLinkDir::Forward, nodes, cost),
    ensures
        is_way(full_adj(base, shortcuts), IdxLinkDir::Forward, nodes, cost),
{
    let full = full_adj(base, shortcuts);
    let fw = IdxLinkDir::Forward;
    assert forall|i: int, w: int|
        0 <= i < nodes.len() - 1 && #[trigger] step(base, fw, nodes[i], nodes[i + 1], w) implies step(
        full,
        fw,
        nodes[i],
        nodes[i + 1],
        w,
    ) by {
        lemma_full_row(base[nodes[i]], shortcuts, nodes[i], nodes[i + 1], w, fw);
    }
    lemma_way_carries(base, full, fw, nodes, cost);
}

/// In a faithful hierarchy, where the graph has a way from `s` to `t` that
/// costs less than `COST_SPAN`, a way up from `s` and a way up from `t`
/// meet at no more than its cost.
pub proof fn lemma_way_is_met(
    base: Seq<Seq<LinkView>>,
    shortcuts: Seq<CHContraction>,
    ranks: Seq<u32>,
    nodes: Seq<int>,
    s: int,
    t: int,
    cost: int,
)
    requires
        framed(base, shortcuts, ranks),
        faithful(base, shortcuts, ranks),
        leads(base, IdxLinkDir::Forward, nodes, s, t, cost),
        cost < COST_SPAN,
    ensures
        meets_within(query_adj(base, shortcuts, ranks), s, t, cost),
{
    lemma_way_lifts(base, shortcuts, nodes, cost);
    assert(low(ranks, nodes, 0));
    lemma_updown(base, shortcuts, ranks, nodes, cost, 0);
}

/// In a faithful hierarchy, no way of the graph from `s` to `t` that costs
/// less than `COST_SPAN` costs less than the cheapest meeting of a way up
/// from `s` and a way up from `t`.
pub proof fn lemma_cheapest_meeting_is_cheapest_way(
    base: Seq<Seq<LinkView>>,
    shortcuts: Seq<CHContraction>,
    ranks: Seq<u32>,
    s: int,
    t: int,
    cost: int,
)
    requires
        framed(base, shortcuts, ranks),
        faithful(base, shortcuts, ranks),
        no_cheaper_meeting(query_adj(base, shortcuts, ranks), s, t, cost),
    ensures
        cheapest_under(base, IdxLinkDir::Forward, s, t, cost, COST_SPAN as int),
{
    let q = query_adj(base, shortcuts, ranks);
    assert forall|nodes: Seq<int>, c: int|
        #[trigger] leads(base, IdxLinkDir::Forward, nodes, s, t, c) && c < COST_SPAN implies cost
        <= c by {
        lemma_way_is_met(base, shortcuts, ranks, nodes, s, t, c);
        let (up, down, x, ca, cb) = choose|
            up: Seq<int>,
            down: Seq<int>,
            x: int,
            ca: int,
            cb: int,
        |
            #[trigger] leads(q, IdxLinkDir::Forward, up, s, x, ca) && #[trigger] leads(
                q,
                IdxLinkDir::Backward,
                down,
                t,
                x,
                cb,
            ) && ca + cb <= c;
        assert(cost <= ca + cb);
    }
}

/// What a query answers is the cost of a way that the graph has, where the
/// shortcuts stand for ways of the graph.
pub proof fn lemma_answer_is_real(
    ch: &CH,
    src: IdxNodeKey,
    dst: IdxNodeKey,
    path: Seq<IdxNodeKey>,
    cost: int,
)
    requires
        ch.ready(),
        real_shortcuts(ch.graph().adj(), ch.shortcuts()),
        answers(ch, src, dst, path, cost),
    ensures
        reaches(ch.graph().adj(), src.0 as int, dst.0 as int, cost),
{
    let base = ch.graph().adj();
    lemma_ready_framed(ch);
    let (up, down) = choose|up: Seq<IdxNodeKey>, down: Seq<IdxNodeKey>|
        {
            &&& #[trigger] meeting(ch.up(), src, dst, up, down, cost)
            &&& path == crate::unpack::unfolded(
                ch.shortcuts(),
                ch.ranks(),
                up.drop_last() + down.reverse(),
            )
        };
    let (a, b) = choose|a: int, b: int|
        {
            &&& #[trigger] leads(
                ch.up(),
                IdxLinkDir::Forward,
                nodes_of(up),
                src.0 as int,
                up.last().0 as int,
                a,
            )
            &&& #[trigger] leads(
                ch.up(),
                IdxLinkDir::Backward,
                nodes_of(down),
                dst.0 as int,
                down.last().0 as int,
                b,
            )
            &&& up.last() == down.last()
            &&& cost == a + b
        };
    lemma_meeting_real(
        base,
        ch.shortcuts(),
        ch.ranks(),
        src.0 as int,
        dst.0 as int,
        up.last().0 as int,
        nodes_of(up),
        nodes_of(down),
        a,
        b,
    );
}

/// A query of a faithful hierarchy and a search of its graph find the same
/// cost: what the query answers from `src` to `dst` is the cost of a way of
/// the graph, and the cheapest.
pub proof fn lemma_query_cost_is_cheapest(
    ch: &CH,
    src: IdxNodeKey,
    dst: IdxNodeKey,
    path: Seq<IdxNodeKey>,
    cost: int,
)
    requires
        ch.ready(),
        faithful(ch.graph().adj(), ch.shortcuts(), ch.ranks()),
        answers(ch, src, dst, path, cost),
        no_cheaper_meeting(ch.up(), src.0 as int, dst.0 as int, cost),
    ensures
        reaches(ch.graph().adj(), src.0 as int, dst.0 as int, cost),
        cheapest_under(
            ch.graph().adj(),
            IdxLinkDir::Forward,
            src.0 as int,
            dst.0 as int,
            cost,
            COST_SPAN as int,
        ),
{
    lemma_ready_framed(ch);
    lemma_answer_is_real(ch, src, dst, path, cost);
    lemma_cheapest_meeting_is_cheapest_way(
        ch.graph().adj(),
        ch.shortcuts(),
        ch.ranks(),
        src.0 as int,
        dst.0 as int,
        cost,
    );
}

/// Where a query of a faithful hierarchy answers at cost `cost` and a
/// search of its graph finds a cheapest way at a cost `other` below
/// `COST_SPAN`, the two costs are the same.
pub proof fn lemma_costs_agree(
    ch: &CH,
    src: IdxNodeKey,
    dst: IdxNodeKey,
    path: Seq<IdxNodeKey>,
    cost: int,
    way: Seq<IdxNodeKey>,
    other: int,
)
    requires
        ch.ready(),
        faithful(ch.graph().adj(), ch.shortcuts(), ch.ranks()),
        answers(ch, src, dst, path, cost),
        no_cheaper_meeting(ch.up(), src.0 as int, dst.0 as int, cost),
        leads(ch.graph().adj(), IdxLinkDir::Forward, nodes_of(way), src.0 as int, dst.0 as int, other),
        cheapest(ch.graph().adj(), IdxLinkDir::Forward, src.0 as int, dst.0 as int, other),
        other < COST_SPAN,
    ensures
        cost == other,
{
    lemma_query_cost_is_cheapest(ch, src, dst, path, cost);
    let nodes = choose|nodes: Seq<int>|
        leads(ch.graph().adj(), IdxLinkDir::Forward, nodes, src.0 as int, dst.0 as int, cost);
    assert(other <= cost);
    assert(cost <= other);
}

/// What a query says of the cost from `src` to `dst` where neither of its
/// searches turns a step away: the cost of a meeting that it unpacks, below
/// `u32::MAX`, than which no meeting is cheaper; or nothing, where no
/// meeting costs less than `u32::MAX`.
pub open spec fn settles(ch: &CH, src: IdxNodeKey, dst: IdxNodeKey, r: Option<int>) -> bool {
    match r {
        Some(cost) => cost < u32::MAX && (exists|path: Seq<IdxNodeKey>| #[trigger]
            answers(ch, src, dst, path, cost)) && no_cheaper_meeting(
            ch.up(),
            src.0 as int,
            dst.0 as int,
            cost,
        ),
        None => no_cheaper_meeting(ch.up(), src.0 as int, dst.0 as int, u32::MAX as int),
    }
}

/// Two hierarchies that are ready for queries over the same graph, with
/// the same ranks and the same shortcuts, answer alike, whether either is
/// faithful or not: both find a way or neither does, and at the same cost.
/// So a hierarchy put together again from its parts answers as it did.
pub proof fn lemma_same_parts_answer_alike(
    a: &CH,
    b: &CH,
    src: IdxNodeKey,
    dst: IdxNodeKey,
    ra: Option<int>,
    rb: Option<int>,
)
    requires
        a.ready(),
        b.ready(),
        a.graph().adj() == b.graph().adj(),
        a.ranks() == b.ranks(),
        a.shortcuts() == b.shortcuts(),
        settles(a, src, dst, ra),
        settles(b, src, dst, rb),
    ensures
        a.up() == b.up(),
        ra == rb,
{
    let adj = a.up();
    assert(b.up() == adj);
    match ra {
        Some(ca) => {
            let pa = choose|path: Seq<IdxNodeKey>| #[trigger] answers(a, src, dst, path, ca);
            let (ua, da) = choose|up: Seq<IdxNodeKey>, down: Seq<IdxNodeKey>|
                {
                    &&& #[trigger] meeting(adj, src, dst, up, down, ca)
                    &&& pa == crate::unpack::unfolded(
                        a.shortcuts(),
                        a.ranks(),
                        up.drop_last() + down.reverse(),
                    )
                };
            assert(meeting(adj, src, dst, ua, da, ca));
            match rb {
                Some(cb) => {
                    let pb = choose|path: Seq<IdxNodeKey>| #[trigger] answers(b, src, dst, path, cb);
                    let (ub, db) = choose|up: Seq<IdxNodeKey>, down: Seq<IdxNodeKey>|
                        {
                            &&& #[trigger] meeting(adj, src, dst, up, down, cb)
                            &&& pb == crate::unpack::unfolded(
                                b.shortcuts(),
                                b.ranks(),
                                up.drop_last() + down.reverse(),
                            )
                        };
                    assert(meeting(adj, src, dst, ub, db, cb));
                    assert(cb <= ca);
                    assert(ca <= cb);
                },
                None => {
                    assert(u32::MAX <= ca);
                },
            }
        },
        None => {
            match rb {
                Some(cb) => {
                    let pb = choose|path: Seq<IdxNodeKey>| #[trigger] answers(b, src, dst, path, cb);
                    let (ub, db) = choose|up: Seq<IdxNodeKey>, down: Seq<IdxNodeKey>|
                        {
                            &&& #[trigger] meeting(adj, src, dst, up, down, cb)
                            &&& pb == crate::unpack::unfolded(
                                b.shortcuts(),
                                b.ranks(),
                                up.drop_last() + down.reverse(),
                            )
                        };
                    assert(meeting(adj, src, dst, ub, db, cb));
                    assert(u32::MAX <= cb);
                },
                None => {},
            }
        },
    }
}

/// Where the graph of a faithful hierarchy has a way from `src` to `dst`
/// that costs less than `bound`, the two ways up meet at less than `bound`:
/// a query does not come back empty where a search of the graph finds a way.
pub proof fn lemma_reachable_alike(
    ch: &CH,
    src: IdxNodeKey,
    dst: IdxNodeKey,
    way: Seq<IdxNodeKey>,
    other: int,
    bound: int,
)
    requires
        ch.ready(),
        faithful(ch.graph().adj(), ch.shortcuts(), ch.ranks()),
        leads(ch.graph().adj(), IdxLinkDir::Forward, nodes_of(way), src.0 as int, dst.0 as int, other),
        other < bound,
        other < COST_SPAN,
    ensures
        !no_cheaper_meeting(ch.up(), src.0 as int, dst.0 as int, bound),
{
    lemma_ready_framed(ch);
    if no_cheaper_meeting(ch.up(), src.0 as int, dst.0 as int, bound) {
        lemma_cheapest_meeting_is_cheapest_way(
            ch.graph().adj(),
            ch.shortcuts(),
            ch.ranks(),
            src.0 as int,
            dst.0 as int,
            bound,
        );
        assert(bound <= other);
    }
}

/// What a query returns is a way of the graph from `src` to `dst`, over
/// links of the graph only, where every shortcut falls into two arcs.
pub proof fn lemma_answer_walks(
    ch: &CH,
    src: IdxNodeKey,
    dst: IdxNodeKey,
    path: Seq<IdxNodeKey>,
    cost: int,
)
    requires
        ch.ready(),
        src.0 < ch.adj().len(),
        dst.0 < ch.adj().len(),
        decomposed(ch.graph().adj(), ch.shortcuts()),
        answers(ch, src, dst, path, cost),
    ensures
        path.len() >= 1,
        path[0] == src,
        path.last() == dst,
        walks(ch.graph().adj(), nodes_of(path)),
{
    let base = ch.graph().adj();
    let q = ch.up();
    lemma_ready_framed(ch);
    lemma_full_sane(base, ch.shortcuts(), ch.ranks());
    let (up, down) = choose|up: Seq<IdxNodeKey>, down: Seq<IdxNodeKey>|
        {
            &&& #[trigger] meeting(ch.up(), src, dst, up, down, cost)
            &&& path == crate::unpack::unfolded(
                ch.shortcuts(),
                ch.ranks(),
                up.drop_last() + down.reverse(),
            )
        };
    let (a, b) = choose|a: int, b: int|
        {
            &&& #[trigger] leads(
                ch.up(),
                IdxLinkDir::Forward,
                nodes_of(up),
                src.0 as int,
                up.last().0 as int,
                a,
            )
            &&& #[trigger] leads(
                ch.up(),
                IdxLinkDir::Backward,
                nodes_of(down),
                dst.0 as int,
                down.last().0 as int,
                b,
            )
            &&& up.last() == down.last()
            &&& cost == a + b
        };
    let joined = up.drop_last() + down.reverse();
    lemma_meeting_chained(base, ch.shortcuts(), ch.ranks(), up, down, a, b);
    crate::search::lemma_way_nodes(q, IdxLinkDir::Forward, nodes_of(up), a);
    crate::search::lemma_way_nodes(q, IdxLinkDir::Backward, nodes_of(down), b);
    assert(nodes_of(up)[0] == up[0].0);
    assert(nodes_of(down)[0] == down[0].0);
    assert forall|i: int| 0 <= i < joined.len() implies (#[trigger] joined[i]).0 < ch.ranks().len() by {
        if i < up.len() - 1 {
            assert(joined[i] == up[i]);
            assert(nodes_of(up)[i] == up[i].0);
        } else {
            let j = i - (up.len() - 1);
            assert(joined[i] == down.reverse()[j]);
            assert(down.reverse()[j] == down[down.len() - 1 - j]);
            assert(nodes_of(down)[down.len() - 1 - j] == down[down.len() - 1 - j].0);
        }
    }
    lemma_unfolded_walks(base, ch.shortcuts(), ch.ranks(), joined);
    assert(joined.last() == down.reverse()[down.len() - 1]);
    assert(down.reverse()[down.len() - 1] == down[0]);
    if up.len() > 1 {
        assert(joined[0] == up[0]);
    } else {
        assert(joined[0] == down.reverse()[0]);
        assert(down.reverse()[0] == down[down.len() - 1]);
    }
    assert(up[0].0 == src.0 && down[0].0 == dst.0);
}

/// The cheapest way between the ends of a shortcut costs no more than the
/// shortcut, where the shortcut stands for a way of the graph.
pub proof fn lemma_shortcut_bounds_cheapest(
    base: Seq<Seq<LinkView>>,
    shortcuts: Seq<CHContraction>,
    i: int,
    cost: int,
)
    requires
        real_shortcuts(base, shortcuts),
        0 <= i < shortcuts.len(),
        cheapest(
            base,
            IdxLinkDir::Forward,
            shortcuts[i].snode_idx.0 as int,
            shortcuts[i].enode_idx.0 as int,
            cost,
        ),
    ensures
        cost <= shortcuts[i].length,
{
    let c = shortcuts[i];
    assert(reaches(base, c.snode_idx.0 as int, c.enode_idx.0 as int, c.length as int));
    let nodes = choose|nodes: Seq<int>|
        leads(
            base,
            IdxLinkDir::Forward,
            nodes,
            c.snode_idx.0 as int,
            c.enode_idx.0 as int,
            c.length as int,
        );
}

/// The two ways whose meeting a query has unpacked: they lead up from
/// `src` and from `dst` to the same node over nodes of the hierarchy.
pub proof fn lemma_answer_parts(
    ch: &CH,
    src: IdxNodeKey,
    dst: IdxNodeKey,
    path: Seq<IdxNodeKey>,
    cost: int,
) -> (out: (Seq<IdxNodeKey>, Seq<IdxNodeKey>, int, int))
    requires
        ch.ready(),
        src.0 < ch.adj().len(),
        dst.0 < ch.adj().len(),
        answers(ch, src, dst, path, cost),
    ensures
        out.0.len() >= 1,
        out.1.len() >= 1,
        is_way(ch.up(), IdxLinkDir::Forward, nodes_of(out.0), out.2),
        is_way(ch.up(), IdxLinkDir::Backward, nodes_of(out.1), out.3),
        out.0.last() == out.1.last(),
        out.2 + out.3 == cost,
        path == crate::unpack::unfolded(
            ch.shortcuts(),
            ch.ranks(),
            out.0.drop_last() + out.1.reverse(),
        ),
        (out.0.drop_last() + out.1.reverse())[0] == src,
        (out.0.drop_last() + out.1.reverse()).last() == dst,
        forall|i: int|
            0 <= i < (out.0.drop_last() + out.1.reverse()).len() ==> (#[trigger] (out.0.drop_last()
                + out.1.reverse())[i]).0 < ch.ranks().len(),
{
    let base = ch.graph().adj();
    let q = ch.up();
    lemma_ready_framed(ch);
    lemma_full_sane(base, ch.shortcuts(), ch.ranks());
    let (up, down) = choose|up: Seq<IdxNodeKey>, down: Seq<IdxNodeKey>|
        {
            &&& #[trigger] meeting(ch.up(), src, dst, up, down, cost)
            &&& path == crate::unpack::unfolded(
                ch.shortcuts(),
                ch.ranks(),
                up.drop_last() + down.reverse(),
            )
        };
    let (a, b) = choose|a: int, b: int|
        {
            &&& #[trigger] leads(
                ch.up(),
                IdxLinkDir::Forward,
                nodes_of(up),
                src.0 as int,
                up.last().0 as int,
                a,
            )
            &&& #[trigger] leads(
                ch.up(),
                IdxLinkDir::Backward,
                nodes_of(down),
                dst.0 as int,
                down.last().0 as int,
                b,
            )
            &&& up.last() == down.last()
            &&& cost == a + b
        };
    let joined = up.drop_last() + down.reverse();
    crate::search::lemma_way_nodes(q, IdxLinkDir::Forward, nodes_of(up), a);
    crate::search::lemma_way_nodes(q, IdxLinkDir::Backward, nodes_of(down), b);
    assert(nodes_of(up)[0] == up[0].0);
    assert(nodes_of(down)[0] == down[0].0);
    assert forall|i: int| 0 <= i < joined.len() implies (#[trigger] joined[i]).0 < ch.ranks().len() by {
        if i < up.len() - 1 {
            assert(joined[i] == up[i]);
            assert(nodes_of(up)[i] == up[i].0);
        } else {
            let j = i - (up.len() - 1);
            assert(joined[i] == down.reverse()[j]);
            assert(down.reverse()[j] == down[down.len() - 1 - j]);
            assert(nodes_of(down)[down.len() - 1 - j] == down[down.len() - 1 - j].0);
        }
    }
    assert(joined.last() == down.reverse()[down.len() - 1]);
    assert(down.reverse()[down.len() - 1] == down[0]);
    if up.len() > 1 {
        assert(joined[0] == up[0]);
    } else {
        assert(joined[0] == down.reverse()[0]);
        assert(down.reverse()[0] == down[down.len() - 1]);
    }
    assert(up[0].0 == src.0 && down[0].0 == dst.0);
    (up, down, a, b)
}

/// In a hierarchy whose shortcuts fall into two arcs and cost no more than
/// a link between the same nodes, what a query returns is a way of the
/// graph from `src` to `dst` that costs no more than the query says.
pub proof fn lemma_answer_within(
    ch: &CH,
    src: IdxNodeKey,
    dst: IdxNodeKey,
    path: Seq<IdxNodeKey>,
    cost: int,
)
    requires
        ch.ready(),
        src.0 < ch.adj().len(),
        dst.0 < ch.adj().len(),
        trim(ch.graph().adj(), ch.shortcuts()),
        decomposed(ch.graph().adj(), ch.shortcuts()),
        answers(ch, src, dst, path, cost),
    ensures
        path.len() >= 1,
        path[0] == src,
        path.last() == dst,
        walks_within(ch.graph().adj(), nodes_of(path), cost),
{
    let base = ch.graph().adj();
    let (up, down, a, b) = lemma_answer_parts(ch, src, dst, path, cost);
    lemma_ready_framed(ch);
    crate::retrace::lemma_meeting_way(base, ch.shortcuts(), ch.ranks(), up, down, a, b);
    crate::retrace::lemma_unfolded_costs(
        base,
        ch.shortcuts(),
        ch.ranks(),
        up.drop_last() + down.reverse(),
        cost,
    );
}

/// In a faithful hierarchy whose shortcuts fall into two arcs, what a
/// query returns at the cost of the cheapest meeting is a way of the graph
/// from `src` to `dst` that costs what the query says.
pub proof fn lemma_answer_costs(
    ch: &CH,
    src: IdxNodeKey,
    dst: IdxNodeKey,
    path: Seq<IdxNodeKey>,
    cost: int,
)
    requires
        ch.ready(),
        src.0 < ch.adj().len(),
        dst.0 < ch.adj().len(),
        faithful(ch.graph().adj(), ch.shortcuts(), ch.ranks()),
        decomposed(ch.graph().adj(), ch.shortcuts()),
        answers(ch, src, dst, path, cost),
        no_cheaper_meeting(ch.up(), src.0 as int, dst.0 as int, cost),
        cost < COST_SPAN,
    ensures
        leads(ch.graph().adj(), IdxLinkDir::Forward, nodes_of(path), src.0 as int, dst.0 as int, cost),
{
    let base = ch.graph().adj();
    lemma_answer_within(ch, src, dst, path, cost);
    let c = choose|c: int| c <= cost && #[trigger] is_way(base, IdxLinkDir::Forward, nodes_of(path), c);
    assert(nodes_of(path)[0] == path[0].0);
    assert(nodes_of(path).last() == path.last().0);
    assert(leads(base, IdxLinkDir::Forward, nodes_of(path), src.0 as int, dst.0 as int, c));
    lemma_query_cost_is_cheapest(ch, src, dst, path, cost);
}

} // verus!
