//! When a hierarchy answers like the graph it was made for: its shortcuts
//! stand for ways that exist, and every way through a node into nodes of
//! higher rank can be taken without it.

use crate::adjacency::{has_link, in_range, mated, targets_within};
use crate::arcs::{lemma_full_row, lemma_query_row, linked, spanned};
use crate::ch::shortcut_within;
use crate::network::{IdxLinkDir, LinkView, COST_SPAN};
use crate::paths::{costs_sane, is_way, leads, lemma_way_concat, lemma_way_extend, step};
use crate::scoring::spans;
use crate::shortcut::CHContraction;
use crate::upward::{full_adj, query_adj};
use crate::witness::reaches;
use vstd::prelude::*;

verus! {

/// Every shortcut stands for a way that the graph has.
pub open spec fn real_shortcuts(base: Seq<Seq<LinkView>>, shortcuts: Seq<CHContraction>) -> bool {
    forall|i: int|
        0 <= i < shortcuts.len() ==> reaches(
            base,
            (#[trigger] shortcuts[i]).snode_idx.0 as int,
            shortcuts[i].enode_idx.0 as int,
            shortcuts[i].length as int,
        )
}

/// The shortcut stands for a way of the graph that passes through the node
/// it names.
pub open spec fn through(base: Seq<Seq<LinkView>>, c: CHContraction) -> bool {
    exists|a: int, b: int|
        #[trigger] reaches(base, c.snode_idx.0 as int, c.mnode_idx.0 as int, a) && #[trigger] reaches(
            base,
            c.mnode_idx.0 as int,
            c.enode_idx.0 as int,
            b,
        ) && a + b == c.length
}

/// Every shortcut stands for a way of the graph through the node it names.
pub open spec fn all_through(base: Seq<Seq<LinkView>>, shortcuts: Seq<CHContraction>) -> bool {
    forall|i: int| 0 <= i < shortcuts.len() ==> through(base, #[trigger] shortcuts[i])
}

/// Every node that has a link or bounds a shortcut has a rank.
pub open spec fn all_ranked(
    base: Seq<Seq<LinkView>>,
    shortcuts: Seq<CHContraction>,
    ranks: Seq<u32>,
) -> bool {
    &&& forall|u: int| 0 <= u < base.len() && (#[trigger] base[u]).len() > 0 ==> ranks[u] != u32::MAX
    &&& forall|i: int|
        0 <= i < shortcuts.len() ==> ranks[(#[trigger] shortcuts[i]).snode_idx.0 as int] != u32::MAX
            && ranks[shortcuts[i].enode_idx.0 as int] != u32::MAX
}

/// No two nodes have the same rank.
pub open spec fn distinct_ranks(ranks: Seq<u32>) -> bool {
    forall|u: int, v: int|
        0 <= u < ranks.len() && 0 <= v < ranks.len() && u != v && (#[trigger] ranks[u]) != u32::MAX
            ==> ranks[u] != (#[trigger] ranks[v])
}

/// Every node of the way has a rank above `r`.
pub open spec fn above(ranks: Seq<u32>, nodes: Seq<int>, r: int) -> bool {
    forall|i: int| 0 <= i < nodes.len() ==> ranks[#[trigger] nodes[i]] > r
}

/// There is a way from `u` to `w` over the graph with its shortcuts that
/// costs no more than `cost` and keeps above the rank of `v`.
pub open spec fn bypassed(
    full: Seq<Seq<LinkView>>,
    ranks: Seq<u32>,
    v: int,
    u: int,
    w: int,
    cost: int,
) -> bool {
    exists|nodes: Seq<int>, c: int|
        c <= cost && #[trigger] leads(full, IdxLinkDir::Forward, nodes, u, w, c) && above(
            ranks,
            nodes,
            ranks[v] as int,
        )
}

/// The arcs into `v` from `u` and out of `v` to `w` make a valley: `v` has
/// the lowest rank of the three, and `u` and `w` differ.
pub open spec fn valley(
    full: Seq<Seq<LinkView>>,
    ranks: Seq<u32>,
    u: int,
    v: int,
    w: int,
    c1: int,
    c2: int,
) -> bool {
    &&& step(full, IdxLinkDir::Forward, u, v, c1)
    &&& step(full, IdxLinkDir::Forward, v, w, c2)
    &&& 0 <= v < ranks.len()
    &&& 0 <= u < ranks.len()
    &&& 0 <= w < ranks.len()
    &&& ranks[v] < ranks[u]
    &&& ranks[v] < ranks[w]
    &&& u != w
}

/// Every valley whose two arcs cost less than `COST_SPAN` together, so that
/// a shortcut over them fits a link, can be passed by without going lower.
pub open spec fn valleys_bypassed(full: Seq<Seq<LinkView>>, ranks: Seq<u32>) -> bool {
    forall|u: int, v: int, w: int, c1: int, c2: int|
        #[trigger] valley(full, ranks, u, v, w, c1, c2) && c1 + c2 < COST_SPAN ==> bypassed(
            full,
            ranks,
            v,
            u,
            w,
            c1 + c2,
        )
}

/// No shortcut costs more than a link of the graph between the same nodes.
pub open spec fn trim(base: Seq<Seq<LinkView>>, shortcuts: Seq<CHContraction>) -> bool {
    forall|i: int, q: int|
        0 <= i < shortcuts.len() && #[trigger] has_link(
            base[shortcuts[i].snode_idx.0 as int],
            shortcuts[i].enode_idx.0 as int,
            q,
            IdxLinkDir::Forward,
        ) ==> shortcuts[i].length <= q
}

/// The hierarchy answers like the graph for ways that cost less than
/// `COST_SPAN`: its shortcuts stand for ways of the graph and cost no more
/// than a link between the same nodes, its nodes have ranks of their own,
/// and every valley that a shortcut could span can be passed by.
pub open spec fn faithful(
    base: Seq<Seq<LinkView>>,
    shortcuts: Seq<CHContraction>,
    ranks: Seq<u32>,
) -> bool {
    &&& real_shortcuts(base, shortcuts)
    &&& all_ranked(base, shortcuts, ranks)
    &&& distinct_ranks(ranks)
    &&& valleys_bypassed(full_adj(base, shortcuts), ranks)
    &&& trim(base, shortcuts)
}

/// What the theorems below take for granted of a graph, shortcuts and ranks.
pub open spec fn framed(
    base: Seq<Seq<LinkView>>,
    shortcuts: Seq<CHContraction>,
    ranks: Seq<u32>,
) -> bool {
    &&& in_range(base)
    &&& costs_sane(base)
    &&& mated(base)
    &&& ranks.len() == base.len()
    &&& forall|i: int|
        0 <= i < shortcuts.len() ==> shortcut_within(#[trigger] shortcuts[i], base.len() as int)
            && shortcuts[i].length < COST_SPAN
}

/// A link of the graph with its shortcuts has its mate, leads to a node of
/// the graph and costs nothing less than nothing.
pub proof fn lemma_linked(
    base: Seq<Seq<LinkView>>,
    shortcuts: Seq<CHContraction>,
    ranks: Seq<u32>,
    u: int,
    t: int,
    c: int,
    dir: IdxLinkDir,
)
    requires
        framed(base, shortcuts, ranks),
        0 <= u < base.len(),
        linked(base[u], shortcuts, u, t, c, dir),
    ensures
        0 <= t < base.len(),
        0 <= c < COST_SPAN,
        linked(base[t], shortcuts, t, u, c, dir.flipped()),
{
    if has_link(base[u], t, c, dir) {
        let j = choose|j: int|
            0 <= j < base[u].len() && #[trigger] base[u][j] == (LinkView {
                to: t,
                cost: c,
                dir: dir,
            });
        assert(targets_within(base[u], base.len() as int));
        assert(0 <= base[u][j].cost);
        assert(has_link(base[base[u][j].to], u, base[u][j].cost, base[u][j].dir.flipped()));
    } else if dir == IdxLinkDir::Forward {
        let i = choose|i: int| 0 <= i < shortcuts.len() && spans(#[trigger] shortcuts[i], u, t, c);
        assert(shortcut_within(shortcuts[i], base.len() as int));
        assert(spanned(shortcuts, u, t, c));
    } else {
        let i = choose|i: int| 0 <= i < shortcuts.len() && spans(#[trigger] shortcuts[i], t, u, c);
        assert(shortcut_within(shortcuts[i], base.len() as int));
        assert(spanned(shortcuts, t, u, c));
    }
}

/// The graph with its shortcuts is in range, and its costs are sane.
pub proof fn lemma_full_sane(
    base: Seq<Seq<LinkView>>,
    shortcuts: Seq<CHContraction>,
    ranks: Seq<u32>,
)
    requires
        framed(base, shortcuts, ranks),
    ensures
        in_range(full_adj(base, shortcuts)),
        costs_sane(full_adj(base, shortcuts)),
        in_range(query_adj(base, shortcuts, ranks)),
        costs_sane(query_adj(base, shortcuts, ranks)),
        full_adj(base, shortcuts).len() == base.len(),
        query_adj(base, shortcuts, ranks).len() == base.len(),
{
    let full = full_adj(base, shortcuts);
    let q = query_adj(base, shortcuts, ranks);
    assert forall|u: int, i: int| 0 <= u < full.len() && 0 <= i < full[u].len() implies 0 <= (
    #[trigger] full[u][i]).to < full.len() && 0 <= full[u][i].cost < 0x4000_0000 by {
        let x = full[u][i];
        assert(has_link(full[u], x.to, x.cost, x.dir));
        lemma_full_row(base[u], shortcuts, u, x.to, x.cost, x.dir);
        lemma_linked(base, shortcuts, ranks, u, x.to, x.cost, x.dir);
    }
    assert forall|u: int| 0 <= u < full.len() implies targets_within(
        #[trigger] full[u],
        full.len() as int,
    ) by {
        assert forall|i: int| 0 <= i < full[u].len() implies 0 <= (#[trigger] full[u][i]).to
            < full.len() by {
            assert(0 <= full[u][i].cost);
        }
    }
    assert forall|u: int, i: int| 0 <= u < q.len() && 0 <= i < q[u].len() implies 0 <= (
    #[trigger] q[u][i]).to < q.len() && 0 <= q[u][i].cost < 0x4000_0000 by {
        let x = q[u][i];
        assert(has_link(q[u], x.to, x.cost, x.dir));
        lemma_query_row(base[u], shortcuts, ranks, u, x.to, x.cost, x.dir);
        lemma_linked(base, shortcuts, ranks, u, x.to, x.cost, x.dir);
    }
    assert forall|u: int| 0 <= u < q.len() implies targets_within(#[trigger] q[u], q.len() as int) by {
        assert forall|i: int| 0 <= i < q[u].len() implies 0 <= (#[trigger] q[u][i]).to
            < q.len() by {
            assert(0 <= q[u][i].cost);
        }
    }
}

/// Two ways, one after the other, make a way.
pub proof fn lemma_reaches_join(
    adj: Seq<Seq<LinkView>>,
    a: int,
    b: int,
    c: int,
    c1: int,
    c2: int,
)
    requires
        reaches(adj, a, b, c1),
        reaches(adj, b, c, c2),
    ensures
        reaches(adj, a, c, c1 + c2),
{
    let first = choose|nodes: Seq<int>| leads(adj, IdxLinkDir::Forward, nodes, a, b, c1);
    let second = choose|nodes: Seq<int>| leads(adj, IdxLinkDir::Forward, nodes, b, c, c2);
    lemma_way_concat(adj, IdxLinkDir::Forward, first, c1, second, c2);
    let joined = first.drop_last() + second;
    assert(joined.last() == second.last());
    if first.len() > 1 {
        assert(joined[0] == first[0]);
    } else {
        assert(joined[0] == second[0]);
    }
    assert(leads(adj, IdxLinkDir::Forward, joined, a, c, c1 + c2));
}

/// A node reaches itself at no cost.
pub proof fn lemma_reaches_self(adj: Seq<Seq<LinkView>>, a: int)
    ensures
        reaches(adj, a, a, 0),
{
    assert(leads(adj, IdxLinkDir::Forward, seq![a], a, a, 0));
}

/// A link of the graph with its shortcuts stands for a way of the graph.
pub proof fn lemma_link_real(
    base: Seq<Seq<LinkView>>,
    shortcuts: Seq<CHContraction>,
    ranks: Seq<u32>,
    u: int,
    t: int,
    c: int,
    dir: IdxLinkDir,
)
    requires
        framed(base, shortcuts, ranks),
        real_shortcuts(base, shortcuts),
        0 <= u < base.len(),
        linked(base[u], shortcuts, u, t, c, dir),
    ensures
        dir == IdxLinkDir::Forward ==> reaches(base, u, t, c),
        dir == IdxLinkDir::Backward ==> reaches(base, t, u, c),
{
    lemma_linked(base, shortcuts, ranks, u, t, c, dir);
    let (from, to) = if dir == IdxLinkDir::Forward {
        (u, t)
    } else {
        (t, u)
    };
    if has_link(base[from], to, c, IdxLinkDir::Forward) {
        let one = seq![from];
        assert(is_way(base, IdxLinkDir::Forward, one, 0));
        assert(step(base, IdxLinkDir::Forward, from, to, c));
        lemma_way_extend(base, IdxLinkDir::Forward, one, 0, to, c);
        assert(leads(base, IdxLinkDir::Forward, one.push(to), from, to, c));
    } else {
        assert(spanned(shortcuts, from, to, c));
        let i = choose|i: int|
            0 <= i < shortcuts.len() && spans(#[trigger] shortcuts[i], from, to, c);
    }
}

/// A way up the hierarchy stands for a way of the graph.
pub proof fn lemma_up_real(
    base: Seq<Seq<LinkView>>,
    shortcuts: Seq<CHContraction>,
    ranks: Seq<u32>,
    nodes: Seq<int>,
    cost: int,
)
    requires
        framed(base, shortcuts, ranks),
        real_shortcuts(base, shortcuts),
        is_way(query_adj(base, shortcuts, ranks), IdxLinkDir::Forward, nodes, cost),
    ensures
        reaches(base, nodes[0], nodes.last(), cost),
    decreases nodes.len(),
{
    let q = query_adj(base, shortcuts, ranks);
    if nodes.len() == 1 {
        lemma_reaches_self(base, nodes[0]);
    } else {
        let w = choose|w: int|
            #[trigger] step(q, IdxLinkDir::Forward, nodes[nodes.len() - 2], nodes.last(), w)
                && is_way(q, IdxLinkDir::Forward, nodes.drop_last(), cost - w);
        let u = nodes[nodes.len() - 2];
        let v = nodes.last();
        lemma_up_real(base, shortcuts, ranks, nodes.drop_last(), cost - w);
        assert(nodes.drop_last()[0] == nodes[0]);
        assert(nodes.drop_last().last() == u);
        lemma_query_row(base[u], shortcuts, ranks, u, v, w, IdxLinkDir::Forward);
        lemma_link_real(base, shortcuts, ranks, u, v, w, IdxLinkDir::Forward);
        lemma_reaches_join(base, nodes[0], u, v, cost - w, w);
    }
}

/// A way up the hierarchy against the arcs stands for a way of the graph
/// back to where it started.
pub proof fn lemma_down_real(
    base: Seq<Seq<LinkView>>,
    shortcuts: Seq<CHContraction>,
    ranks: Seq<u32>,
    nodes: Seq<int>,
    cost: int,
)
    requires
        framed(base, shortcuts, ranks),
        real_shortcuts(base, shortcuts),
        is_way(query_adj(base, shortcuts, ranks), IdxLinkDir::Backward, nodes, cost),
    ensures
        reaches(base, nodes.last(), nodes[0], cost),
    decreases nodes.len(),
{
    let q = query_adj(base, shortcuts, ranks);
    if nodes.len() == 1 {
        lemma_reaches_self(base, nodes[0]);
    } else {
        let w = choose|w: int|
            #[trigger] step(q, IdxLinkDir::Backward, nodes[nodes.len() - 2], nodes.last(), w)
                && is_way(q, IdxLinkDir::Backward, nodes.drop_last(), cost - w);
        let u = nodes[nodes.len() - 2];
        let v = nodes.last();
        lemma_down_real(base, shortcuts, ranks, nodes.drop_last(), cost - w);
        assert(nodes.drop_last()[0] == nodes[0]);
        assert(nodes.drop_last().last() == u);
        lemma_query_row(base[u], shortcuts, ranks, u, v, w, IdxLinkDir::Backward);
        lemma_link_real(base, shortcuts, ranks, u, v, w, IdxLinkDir::Backward);
        lemma_reaches_join(base, v, u, nodes[0], w, cost - w);
    }
}

/// Where two ways up the hierarchy meet, one from `s` along the arcs and
/// one from `t` against them, the graph has a way from `s` to `t` at the cost
/// of both.
pub proof fn lemma_meeting_real(
    base: Seq<Seq<LinkView>>,
    shortcuts: Seq<CHContraction>,
    ranks: Seq<u32>,
    s: int,
    t: int,
    x: int,
    up: Seq<int>,
    down: Seq<int>,
    a: int,
    b: int,
)
    requires
        framed(base, shortcuts, ranks),
        real_shortcuts(base, shortcuts),
        leads(query_adj(base, shortcuts, ranks), IdxLinkDir::Forward, up, s, x, a),
        leads(query_adj(base, shortcuts, ranks), IdxLinkDir::Backward, down, t, x, b),
    ensures
        reaches(base, s, t, a + b),
{
    lemma_up_real(base, shortcuts, ranks, up, a);
    lemma_down_real(base, shortcuts, ranks, down, b);
    lemma_reaches_join(base, s, x, t, a, b);
}

/// In the graph with its shortcuts every link has its mate.
pub proof fn lemma_full_mated(
    base: Seq<Seq<LinkView>>,
    shortcuts: Seq<CHContraction>,
    ranks: Seq<u32>,
)
    requires
        framed(base, shortcuts, ranks),
    ensures
        mated(full_adj(base, shortcuts)),
{
    let full = full_adj(base, shortcuts);
    assert forall|u: int, i: int| 0 <= u < full.len() && 0 <= i < full[u].len() implies has_link(
        full[(#[trigger] full[u][i]).to],
        u,
        full[u][i].cost,
        full[u][i].dir.flipped(),
    ) by {
        let x = full[u][i];
        assert(has_link(full[u], x.to, x.cost, x.dir));
        lemma_full_row(base[u], shortcuts, u, x.to, x.cost, x.dir);
        lemma_linked(base, shortcuts, ranks, u, x.to, x.cost, x.dir);
        lemma_full_row(base[x.to], shortcuts, x.to, u, x.cost, x.dir.flipped());
    }
}

} // verus!
