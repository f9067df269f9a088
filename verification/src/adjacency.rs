//! The mathematical model of an adjacency array, and what it means for one
//! to hold every arc twice: once at its tail, once at its head.

use crate::network::{IdxLink, IdxLinkDir, LinkView};
use vstd::prelude::*;

verus! {

/// What the links of one node say.
pub open spec fn links_view(links: Seq<IdxLink>) -> Seq<LinkView> {
    Seq::new(links.len(), |i: int| links[i]@)
}

/// What an adjacency array says: for each node, what its links say.
pub open spec fn adj_of(rows: Seq<Vec<IdxLink>>) -> Seq<Seq<LinkView>> {
    Seq::new(rows.len(), |u: int| links_view(rows[u]@))
}

/// Every link of the list leads to one of the first `n` nodes.
pub open spec fn targets_within(list: Seq<LinkView>, n: int) -> bool {
    forall|i: int| 0 <= i < list.len() ==> 0 <= (#[trigger] list[i]).to < n
}

/// Every link of the array leads to a node of the array.
pub open spec fn in_range(adj: Seq<Seq<LinkView>>) -> bool {
    forall|u: int| 0 <= u < adj.len() ==> targets_within(#[trigger] adj[u], adj.len() as int)
}

/// Every link of the list has direction `dir`.
pub open spec fn all_dir(list: Seq<LinkView>, dir: IdxLinkDir) -> bool {
    forall|i: int| 0 <= i < list.len() ==> (#[trigger] list[i]).dir == dir
}

/// In the list the `Forward` links come before the `Backward` links.
pub open spec fn grouped(list: Seq<LinkView>) -> bool {
    forall|i: int, j: int|
        0 <= i < j < list.len() && (#[trigger] list[i]).dir == IdxLinkDir::Backward ==> (
        #[trigger] list[j]).dir == IdxLinkDir::Backward
}

/// In every list of the array the `Forward` links come first.
pub open spec fn all_grouped(adj: Seq<Seq<LinkView>>) -> bool {
    forall|u: int| 0 <= u < adj.len() ==> grouped(#[trigger] adj[u])
}

/// The costs of the links of `list` that lead to `t` in direction `dir`, in
/// the order of the list.
pub open spec fn costs_to(list: Seq<LinkView>, t: int, dir: IdxLinkDir) -> Seq<int>
    decreases list.len(),
{
    if list.len() == 0 {
        Seq::empty()
    } else {
        let rest = costs_to(list.drop_last(), t, dir);
        if list.last().to == t && list.last().dir == dir {
            rest.push(list.last().cost)
        } else {
            rest
        }
    }
}

/// Every arc stands at both its ends, and parallel arcs stand in the same
/// order at both: the costs of the `Forward` links at `u` to `v` are the
/// costs of the `Backward` links at `v` to `u`.
pub open spec fn paired(adj: Seq<Seq<LinkView>>) -> bool {
    forall|u: int, v: int|
        0 <= u < adj.len() && 0 <= v < adj.len() ==> #[trigger] costs_to(
            adj[u],
            v,
            IdxLinkDir::Forward,
        ) == costs_to(adj[v], u, IdxLinkDir::Backward)
}

/// The list holds a link to `t` of cost `cost` in direction `dir`.
pub open spec fn has_link(list: Seq<LinkView>, t: int, cost: int, dir: IdxLinkDir) -> bool {
    exists|j: int|
        0 <= j < list.len() && #[trigger] list[j] == (LinkView { to: t, cost: cost, dir: dir })
}

/// Every link has its mate at the node it leads to: one back to where it
/// stands, of the same cost and the other direction.
pub open spec fn mated(adj: Seq<Seq<LinkView>>) -> bool {
    forall|u: int, i: int|
        0 <= u < adj.len() && 0 <= i < adj[u].len() ==> has_link(
            adj[(#[trigger] adj[u][i]).to],
            u,
            adj[u][i].cost,
            adj[u][i].dir.flipped(),
        )
}

/// The costs of a joined list are the costs of its parts, one after the
/// other.
pub proof fn lemma_costs_to_concat(a: Seq<LinkView>, b: Seq<LinkView>, t: int, dir: IdxLinkDir)
    ensures
        costs_to(a + b, t, dir) == costs_to(a, t, dir) + costs_to(b, t, dir),
    decreases b.len(),
{
    if b.len() == 0 {
        assert(a + b =~= a);
        assert(costs_to(a, t, dir) + costs_to(b, t, dir) =~= costs_to(a, t, dir));
    } else {
        assert((a + b).drop_last() =~= a + b.drop_last());
        assert((a + b).last() == b.last());
        lemma_costs_to_concat(a, b.drop_last(), t, dir);
        let x = costs_to(a, t, dir);
        let y = costs_to(b.drop_last(), t, dir);
        if b.last().to == t && b.last().dir == dir {
            assert((x + y).push(b.last().cost) =~= x + y.push(b.last().cost));
        }
    }
}

/// The costs of a list of one link.
pub proof fn lemma_costs_to_one(x: LinkView, t: int, dir: IdxLinkDir)
    ensures
        costs_to(seq![x], t, dir) == if x.to == t && x.dir == dir {
            seq![x.cost]
        } else {
            Seq::<int>::empty()
        },
{
    let s = seq![x];
    assert(s.drop_last() =~= Seq::<LinkView>::empty());
    assert(costs_to(s.drop_last(), t, dir) =~= Seq::<int>::empty());
    assert(s.last() == x);
    if x.to == t && x.dir == dir {
        assert(Seq::<int>::empty().push(x.cost) =~= seq![x.cost]);
    }
}

/// A list without a link to `t` in direction `dir` has no such costs.
pub proof fn lemma_costs_to_none(list: Seq<LinkView>, t: int, dir: IdxLinkDir)
    requires
        forall|i: int| 0 <= i < list.len() ==> !((#[trigger] list[i]).to == t && list[i].dir == dir),
    ensures
        costs_to(list, t, dir) == Seq::<int>::empty(),
    decreases list.len(),
{
    if list.len() > 0 {
        lemma_costs_to_none(list.drop_last(), t, dir);
    }
}

/// The cost of each link of the list is among the costs to where it leads.
pub proof fn lemma_costs_to_holds(list: Seq<LinkView>, i: int)
    requires
        0 <= i < list.len(),
    ensures
        costs_to(list, list[i].to, list[i].dir).contains(list[i].cost),
    decreases list.len(),
{
    let t = list[i].to;
    let dir = list[i].dir;
    let rest = costs_to(list.drop_last(), t, dir);
    if i == list.len() - 1 {
        assert(rest.push(list[i].cost)[rest.len() as int] == list[i].cost);
    } else {
        lemma_costs_to_holds(list.drop_last(), i);
        let k = choose|k: int| 0 <= k < rest.len() && rest[k] == list[i].cost;
        assert(costs_to(list, t, dir)[k] == list[i].cost);
    }
}

/// Each of the costs to `t` in direction `dir` is the cost of such a link.
pub proof fn lemma_costs_to_found(list: Seq<LinkView>, t: int, dir: IdxLinkDir, cost: int)
    requires
        costs_to(list, t, dir).contains(cost),
    ensures
        has_link(list, t, cost, dir),
    decreases list.len(),
{
    if list.len() == 0 {
    } else {
        let rest = costs_to(list.drop_last(), t, dir);
        let k = choose|k: int| 0 <= k < costs_to(list, t, dir).len() && costs_to(list, t, dir)[k] == cost;
        if list.last().to == t && list.last().dir == dir && k == rest.len() {
            assert(list[list.len() - 1] == (LinkView { to: t, cost: cost, dir: dir }));
        } else {
            assert(rest[k] == cost);
            lemma_costs_to_found(list.drop_last(), t, dir, cost);
            let j = choose|j: int|
                0 <= j < list.drop_last().len() && #[trigger] list.drop_last()[j] == (LinkView {
                    to: t,
                    cost: cost,
                    dir: dir,
                });
            assert(list[j] == (LinkView { to: t, cost: cost, dir: dir }));
        }
    }
}

/// In an array that holds every arc at both ends, every link has its mate.
pub proof fn lemma_paired_is_mated(adj: Seq<Seq<LinkView>>)
    requires
        in_range(adj),
        paired(adj),
    ensures
        mated(adj),
{
    assert forall|u: int, i: int| 0 <= u < adj.len() && 0 <= i < adj[u].len() implies has_link(
        adj[(#[trigger] adj[u][i]).to],
        u,
        adj[u][i].cost,
        adj[u][i].dir.flipped(),
    ) by {
        let link = adj[u][i];
        let v = link.to;
        assert(targets_within(adj[u], adj.len() as int));
        lemma_costs_to_holds(adj[u], i);
        if link.dir == IdxLinkDir::Forward {
            assert(costs_to(adj[u], v, IdxLinkDir::Forward) == costs_to(
                adj[v],
                u,
                IdxLinkDir::Backward,
            ));
            lemma_costs_to_found(adj[v], u, IdxLinkDir::Backward, link.cost);
        } else {
            assert(costs_to(adj[v], u, IdxLinkDir::Forward) == costs_to(
                adj[u],
                v,
                IdxLinkDir::Backward,
            ));
            lemma_costs_to_found(adj[v], u, IdxLinkDir::Forward, link.cost);
        }
    }
}

/// The `Backward` links that the links of `list`, standing at `u`, give to
/// node `v`: one for each link of the list that leads to `v`, in order.
pub open spec fn rev_of_list(list: Seq<LinkView>, u: int, v: int) -> Seq<LinkView>
    decreases list.len(),
{
    if list.len() == 0 {
        Seq::empty()
    } else {
        let rest = rev_of_list(list.drop_last(), u, v);
        if list.last().to == v {
            rest.push(LinkView { to: u, cost: list.last().cost, dir: IdxLinkDir::Backward })
        } else {
            rest
        }
    }
}

/// The `Backward` links that the first `k` nodes of the array give to node
/// `v`, node by node.
pub open spec fn rev_upto(adj: Seq<Seq<LinkView>>, k: int, v: int) -> Seq<LinkView>
    decreases k,
{
    if k <= 0 {
        Seq::empty()
    } else {
        rev_upto(adj, k - 1, v) + rev_of_list(adj[k - 1], k - 1, v)
    }
}

/// The reversed links of a list are `Backward` links to where the list stands,
/// with the costs of the list's links to `v`.
pub proof fn lemma_rev_of_list(list: Seq<LinkView>, u: int, v: int)
    ensures
        all_dir(rev_of_list(list, u, v), IdxLinkDir::Backward),
        forall|i: int|
            0 <= i < rev_of_list(list, u, v).len() ==> (#[trigger] rev_of_list(list, u, v)[i]).to == u,
        all_dir(list, IdxLinkDir::Forward) ==> costs_to(
            rev_of_list(list, u, v),
            u,
            IdxLinkDir::Backward,
        ) == costs_to(list, v, IdxLinkDir::Forward),
    decreases list.len(),
{
    if list.len() > 0 {
        lemma_rev_of_list(list.drop_last(), u, v);
        let rest = rev_of_list(list.drop_last(), u, v);
        if list.last().to == v {
            let x = LinkView { to: u, cost: list.last().cost, dir: IdxLinkDir::Backward };
            assert(rest.push(x).drop_last() =~= rest);
            if all_dir(list, IdxLinkDir::Forward) {
                assert(list.last() == list[list.len() - 1]);
                assert(all_dir(list.drop_last(), IdxLinkDir::Forward)) by {
                    assert forall|i: int| 0 <= i < list.drop_last().len() implies (
                    #[trigger] list.drop_last()[i]).dir == IdxLinkDir::Forward by {
                        assert(list.drop_last()[i] == list[i]);
                    }
                }
            }
        } else {
            if all_dir(list, IdxLinkDir::Forward) {
                assert(all_dir(list.drop_last(), IdxLinkDir::Forward)) by {
                    assert forall|i: int| 0 <= i < list.drop_last().len() implies (
                    #[trigger] list.drop_last()[i]).dir == IdxLinkDir::Forward by {
                        assert(list.drop_last()[i] == list[i]);
                    }
                }
            }
        }
    }
}

/// What the first `k` nodes give to `v` holds, as costs of `Backward` links
/// to `u`, the costs of the `Forward` links at `u` to `v`, once `u` is among
/// those nodes.
pub proof fn lemma_rev_upto(adj: Seq<Seq<LinkView>>, k: int, u: int, v: int)
    requires
        0 <= k <= adj.len(),
        0 <= u,
        forall|w: int| 0 <= w < adj.len() ==> all_dir(#[trigger] adj[w], IdxLinkDir::Forward),
    ensures
        all_dir(rev_upto(adj, k, v), IdxLinkDir::Backward),
        forall|i: int| 0 <= i < rev_upto(adj, k, v).len() ==> 0 <= (#[trigger] rev_upto(adj, k, v)[i]).to < k,
        costs_to(rev_upto(adj, k, v), u, IdxLinkDir::Backward) == if u < k {
            costs_to(adj[u], v, IdxLinkDir::Forward)
        } else {
            Seq::<int>::empty()
        },
    decreases k,
{
    if k > 0 {
        lemma_rev_upto(adj, k - 1, u, v);
        lemma_rev_of_list(adj[k - 1], k - 1, v);
        let a = rev_upto(adj, k - 1, v);
        let b = rev_of_list(adj[k - 1], k - 1, v);
        lemma_costs_to_concat(a, b, u, IdxLinkDir::Backward);
        if u == k - 1 {
            assert(costs_to(a, u, IdxLinkDir::Backward) + costs_to(b, u, IdxLinkDir::Backward)
                =~= costs_to(adj[u], v, IdxLinkDir::Forward));
        } else {
            lemma_costs_to_none(b, u, IdxLinkDir::Backward);
            assert(costs_to(a, u, IdxLinkDir::Backward) + Seq::<int>::empty() =~= costs_to(
                a,
                u,
                IdxLinkDir::Backward,
            ));
        }
    }
}

} // verus!
