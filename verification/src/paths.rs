//! Ways through an adjacency array, and what they cost.

use crate::adjacency::{adj_of, has_link, in_range, mated, targets_within};
use crate::network::{IdxLink, IdxLinkDir, IdxNodeKey, LinkView};
use vstd::prelude::*;

verus! {

/// Node `u` has a link to `v` of cost `w` in direction `dir`.
pub open spec fn step(
    adj: Seq<Seq<LinkView>>,
    dir: IdxLinkDir,
    u: int,
    v: int,
    w: int,
) -> bool {
    0 <= u < adj.len() && has_link(adj[u], v, w, dir)
}

/// `nodes` is a way through the array: from each node to the next there is a
/// link in direction `dir`, and the costs of these links add up to `cost`.
/// Where two nodes have several links between them, any of them serves.
pub open spec fn is_way(
    adj: Seq<Seq<LinkView>>,
    dir: IdxLinkDir,
    nodes: Seq<int>,
    cost: int,
) -> bool
    decreases nodes.len(),
{
    if nodes.len() <= 1 {
        nodes.len() == 1 && cost == 0
    } else {
        exists|w: int|
            #[trigger] step(adj, dir, nodes[nodes.len() - 2], nodes.last(), w) && is_way(
                adj,
                dir,
                nodes.drop_last(),
                cost - w,
            )
    }
}

/// `nodes` is a way from `a` to `b` of total cost `cost`.
pub open spec fn leads(
    adj: Seq<Seq<LinkView>>,
    dir: IdxLinkDir,
    nodes: Seq<int>,
    a: int,
    b: int,
    cost: int,
) -> bool {
    &&& is_way(adj, dir, nodes, cost)
    &&& nodes.len() > 0
    &&& nodes[0] == a
    &&& nodes.last() == b
}

/// No way from `a` to `b` costs less than `cost`.
pub open spec fn cheapest(
    adj: Seq<Seq<LinkView>>,
    dir: IdxLinkDir,
    a: int,
    b: int,
    cost: int,
) -> bool {
    forall|nodes: Seq<int>, c: int| #[trigger] leads(adj, dir, nodes, a, b, c) ==> cost <= c
}

/// No way from `a` to `b` that costs less than `span` costs less than
/// `cost`.
pub open spec fn cheapest_under(
    adj: Seq<Seq<LinkView>>,
    dir: IdxLinkDir,
    a: int,
    b: int,
    cost: int,
    span: int,
) -> bool {
    forall|nodes: Seq<int>, c: int| #[trigger] leads(adj, dir, nodes, a, b, c) && c < span ==> cost <= c
}

/// The nodes that the keys name.
pub open spec fn nodes_of(path: Seq<IdxNodeKey>) -> Seq<int> {
    Seq::new(path.len(), |i: int| path[i].0 as int)
}

/// No link of the array has a negative cost.
pub open spec fn costs_sane(adj: Seq<Seq<LinkView>>) -> bool {
    forall|u: int, i: int|
        0 <= u < adj.len() && 0 <= i < adj[u].len() ==> 0 <= (#[trigger] adj[u][i]).cost
            < 0x4000_0000
}

/// What packed links say has costs of 30 bits.
pub proof fn lemma_adj_of_costs(rows: Seq<Vec<IdxLink>>)
    ensures
        costs_sane(adj_of(rows)),
{
    let adj = adj_of(rows);
    assert forall|u: int, i: int| 0 <= u < adj.len() && 0 <= i < adj[u].len() implies 0 <= (
    #[trigger] adj[u][i]).cost < 0x4000_0000 by {
        let link = rows[u]@[i];
        assert(adj[u][i] == link@);
        crate::network::lemma_repack_keeps_dir(link.word(), 0);
    }
}

/// A way that is followed by one more link is a way.
pub proof fn lemma_way_extend(
    adj: Seq<Seq<LinkView>>,
    dir: IdxLinkDir,
    nodes: Seq<int>,
    cost: int,
    v: int,
    w: int,
)
    requires
        is_way(adj, dir, nodes, cost),
        step(adj, dir, nodes.last(), v, w),
    ensures
        is_way(adj, dir, nodes.push(v), cost + w),
{
    let longer = nodes.push(v);
    assert(longer.drop_last() =~= nodes);
    assert(longer[longer.len() - 2] == nodes.last());
    assert(longer.last() == v);
    assert(step(adj, dir, longer[longer.len() - 2], longer.last(), w) && is_way(
        adj,
        dir,
        longer.drop_last(),
        cost + w - w,
    ));
}

/// A way costs nothing less than nothing, and visits nodes of the array only
/// once it has left its first node.
pub proof fn lemma_way_bounds(adj: Seq<Seq<LinkView>>, dir: IdxLinkDir, nodes: Seq<int>, cost: int)
    requires
        in_range(adj),
        costs_sane(adj),
        is_way(adj, dir, nodes, cost),
    ensures
        cost >= 0,
        nodes.len() > 1 ==> 0 <= nodes.last() < adj.len() && 0 <= nodes[0] < adj.len(),
    decreases nodes.len(),
{
    if nodes.len() > 1 {
        let w = choose|w: int|
            #[trigger] step(adj, dir, nodes[nodes.len() - 2], nodes.last(), w) && is_way(
                adj,
                dir,
                nodes.drop_last(),
                cost - w,
            );
        let u = nodes[nodes.len() - 2];
        lemma_step_bounds(adj, dir, u, nodes.last(), w);
        lemma_way_bounds(adj, dir, nodes.drop_last(), cost - w);
        assert(nodes.drop_last()[0] == nodes[0]);
        if nodes.len() == 2 {
            assert(nodes[0] == u);
        }
    }
}

/// A link leads to a node of the array and costs nothing less than nothing.
pub proof fn lemma_step_bounds(adj: Seq<Seq<LinkView>>, dir: IdxLinkDir, u: int, v: int, w: int)
    requires
        in_range(adj),
        costs_sane(adj),
        step(adj, dir, u, v, w),
    ensures
        0 <= v < adj.len(),
        0 <= w < 0x4000_0000,
{
    let j = choose|j: int|
        0 <= j < adj[u].len() && #[trigger] adj[u][j] == (LinkView { to: v, cost: w, dir: dir });
    assert(targets_within(adj[u], adj.len() as int));
    assert(0 <= adj[u][j].cost);
}

/// Where every link has its mate, a way against the arcs, read from its end,
/// is a way along the arcs of the same cost, and the other way round.
pub proof fn lemma_way_reversed(
    adj: Seq<Seq<LinkView>>,
    dir: IdxLinkDir,
    nodes: Seq<int>,
    cost: int,
)
    requires
        in_range(adj),
        mated(adj),
        is_way(adj, dir, nodes, cost),
    ensures
        is_way(adj, dir.flipped(), nodes.reverse(), cost),
    decreases nodes.len(),
{
    if nodes.len() > 1 {
        let w = choose|w: int|
            #[trigger] step(adj, dir, nodes[nodes.len() - 2], nodes.last(), w) && is_way(
                adj,
                dir,
                nodes.drop_last(),
                cost - w,
            );
        let u = nodes[nodes.len() - 2];
        let v = nodes.last();
        lemma_way_reversed(adj, dir, nodes.drop_last(), cost - w);
        let j = choose|j: int|
            0 <= j < adj[u].len() && #[trigger] adj[u][j] == (LinkView { to: v, cost: w, dir: dir });
        assert(targets_within(adj[u], adj.len() as int));
        assert(has_link(adj[adj[u][j].to], u, adj[u][j].cost, adj[u][j].dir.flipped()));
        assert(step(adj, dir.flipped(), v, u, w));
        // the reversed way starts with the link from v back to u
        lemma_way_prepend(adj, dir.flipped(), nodes.drop_last().reverse(), cost - w, v, w);
        assert(seq![v] + nodes.drop_last().reverse() =~= nodes.reverse());
    } else {
        assert(nodes.reverse() =~= nodes);
    }
}

/// A link followed by a way from where it leads is a way.
pub proof fn lemma_way_prepend(
    adj: Seq<Seq<LinkView>>,
    dir: IdxLinkDir,
    nodes: Seq<int>,
    cost: int,
    u: int,
    w: int,
)
    requires
        is_way(adj, dir, nodes, cost),
        nodes.len() > 0,
        step(adj, dir, u, nodes[0], w),
    ensures
        is_way(adj, dir, seq![u] + nodes, cost + w),
    decreases nodes.len(),
{
    let longer = seq![u] + nodes;
    if nodes.len() == 1 {
        assert(longer.drop_last() =~= seq![u]);
        assert(longer[longer.len() - 2] == u);
        assert(longer.last() == nodes[0]);
        assert(is_way(adj, dir, seq![u], 0));
        assert(step(adj, dir, longer[longer.len() - 2], longer.last(), w) && is_way(
            adj,
            dir,
            longer.drop_last(),
            cost + w - w,
        ));
    } else {
        let x = choose|x: int|
            #[trigger] step(adj, dir, nodes[nodes.len() - 2], nodes.last(), x) && is_way(
                adj,
                dir,
                nodes.drop_last(),
                cost - x,
            );
        assert(nodes.drop_last()[0] == nodes[0]);
        lemma_way_prepend(adj, dir, nodes.drop_last(), cost - x, u, w);
        assert(longer.drop_last() =~= seq![u] + nodes.drop_last());
        assert(longer[longer.len() - 2] == nodes[nodes.len() - 2]);
        assert(longer.last() == nodes.last());
        assert(step(adj, dir, longer[longer.len() - 2], longer.last(), x) && is_way(
            adj,
            dir,
            longer.drop_last(),
            cost + w - x,
        ));
    }
}

/// Two ways, the second from where the first ends, make one way.
pub proof fn lemma_way_concat(
    adj: Seq<Seq<LinkView>>,
    dir: IdxLinkDir,
    first: Seq<int>,
    c1: int,
    second: Seq<int>,
    c2: int,
)
    requires
        is_way(adj, dir, first, c1),
        is_way(adj, dir, second, c2),
        first.len() > 0,
        second.len() > 0,
        first.last() == second[0],
    ensures
        is_way(adj, dir, first.drop_last() + second, c1 + c2),
    decreases second.len(),
{
    let joined = first.drop_last() + second;
    if second.len() == 1 {
        assert(joined =~= first);
    } else {
        let x = choose|x: int|
            #[trigger] step(adj, dir, second[second.len() - 2], second.last(), x) && is_way(
                adj,
                dir,
                second.drop_last(),
                c2 - x,
            );
        assert(second.drop_last()[0] == second[0]);
        lemma_way_concat(adj, dir, first, c1, second.drop_last(), c2 - x);
        assert(joined.drop_last() =~= first.drop_last() + second.drop_last());
        assert(joined.last() == second.last());
        if second.len() == 2 {
            assert(joined[joined.len() - 2] == first.last());
        } else {
            assert(joined[joined.len() - 2] == second[second.len() - 2]);
        }
        assert(step(adj, dir, joined[joined.len() - 2], joined.last(), x) && is_way(
            adj,
            dir,
            joined.drop_last(),
            c1 + c2 - x,
        ));
    }
}

/// A way is a way of every array that has each of its links.
pub proof fn lemma_way_carries(
    a: Seq<Seq<LinkView>>,
    b: Seq<Seq<LinkView>>,
    dir: IdxLinkDir,
    nodes: Seq<int>,
    cost: int,
)
    requires
        is_way(a, dir, nodes, cost),
        forall|i: int, w: int|
            0 <= i < nodes.len() - 1 && #[trigger] step(a, dir, nodes[i], nodes[i + 1], w) ==> step(
                b,
                dir,
                nodes[i],
                nodes[i + 1],
                w,
            ),
    ensures
        is_way(b, dir, nodes, cost),
    decreases nodes.len(),
{
    if nodes.len() > 1 {
        let n = nodes.len() as int;
        let w = choose|w: int|
            #[trigger] step(a, dir, nodes[n - 2], nodes.last(), w) && is_way(
                a,
                dir,
                nodes.drop_last(),
                cost - w,
            );
        let init = nodes.drop_last();
        assert forall|i: int, x: int|
            0 <= i < init.len() - 1 && #[trigger] step(a, dir, init[i], init[i + 1], x) implies step(
            b,
            dir,
            init[i],
            init[i + 1],
            x,
        ) by {
            assert(init[i] == nodes[i] && init[i + 1] == nodes[i + 1]);
        }
        lemma_way_carries(a, b, dir, init, cost - w);
        assert(step(a, dir, nodes[n - 2], nodes[n - 2 + 1], w));
        assert(step(b, dir, nodes[n - 2], nodes.last(), w));
    }
}

/// Between each node of a way and the next there is a link.
pub proof fn lemma_way_steps(
    adj: Seq<Seq<LinkView>>,
    dir: IdxLinkDir,
    nodes: Seq<int>,
    cost: int,
    i: int,
) -> (w: int)
    requires
        is_way(adj, dir, nodes, cost),
        0 <= i < nodes.len() - 1,
    ensures
        step(adj, dir, nodes[i], nodes[i + 1], w),
    decreases nodes.len(),
{
    let n = nodes.len() as int;
    let last = choose|w: int|
        #[trigger] step(adj, dir, nodes[n - 2], nodes.last(), w) && is_way(
            adj,
            dir,
            nodes.drop_last(),
            cost - w,
        );
    if i == n - 2 {
        last
    } else {
        let init = nodes.drop_last();
        let w = lemma_way_steps(adj, dir, init, cost - last, i);
        assert(init[i] == nodes[i] && init[i + 1] == nodes[i + 1]);
        w
    }
}

} // verus!
