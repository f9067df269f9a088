//! What holds of a hierarchy between two contractions.

use crate::adjacency::{
    all_grouped, costs_to, in_range, lemma_costs_to_holds, paired, targets_within,
};
use crate::ch::CH;
use crate::contraction::paired_but;
use crate::network::{LinkView, COST_SPAN};
use crate::pairing::lemma_costs_mean_link;
use crate::shortcut::CHContraction;
use vstd::prelude::*;

verus! {

/// A contracted node has no links left.
pub open spec fn isolated(adj: Seq<Seq<LinkView>>, ranks: Seq<u32>) -> bool {
    forall|u: int| 0 <= u < adj.len() && ranks[u] != u32::MAX ==> (#[trigger] adj[u]).len() == 0
}

/// The nodes that are contracted.
pub open spec fn contracted(ranks: Seq<u32>) -> Set<int> {
    Set::new(|u: int| 0 <= u < ranks.len() && ranks[u] != u32::MAX)
}

/// The nodes that have links.
pub open spec fn with_links(adj: Seq<Seq<LinkView>>) -> Set<int> {
    Set::new(|u: int| 0 <= u < adj.len() && adj[u].len() > 0)
}

/// Some node has rank `r`.
pub open spec fn rank_taken(ranks: Seq<u32>, r: int) -> bool {
    exists|u: int| 0 <= u < ranks.len() && #[trigger] ranks[u] == r
}

/// The ranks of the contracted nodes are the numbers from 1 to `count`, each
/// taken once.
pub open spec fn ranked(ranks: Seq<u32>, count: int) -> bool {
    &&& 0 <= count <= ranks.len()
    &&& contracted(ranks).finite()
    &&& contracted(ranks).len() == count
    &&& forall|u: int|
        0 <= u < ranks.len() && (#[trigger] ranks[u]) != u32::MAX ==> 1 <= ranks[u] <= count
    &&& forall|u: int, v: int|
        0 <= u < ranks.len() && 0 <= v < ranks.len() && u != v && (#[trigger] ranks[u])
            != u32::MAX ==> ranks[u] != (#[trigger] ranks[v])
    &&& forall|r: int| 1 <= r <= count ==> #[trigger] rank_taken(ranks, r)
}

/// The shortcut joins two different nodes at a cost that fits a link, and the
/// node it runs through was contracted before either of them.
pub open spec fn shortcut_ok(ranks: Seq<u32>, c: CHContraction) -> bool {
    &&& c.snode_idx != c.enode_idx
    &&& c.length < COST_SPAN
    &&& ranks[c.mnode_idx.0 as int] != u32::MAX
    &&& ranks[c.mnode_idx.0 as int] < ranks[c.snode_idx.0 as int]
    &&& ranks[c.mnode_idx.0 as int] < ranks[c.enode_idx.0 as int]
}

/// Every shortcut of the list is in order.
pub open spec fn shortcuts_ok(ranks: Seq<u32>, list: Seq<CHContraction>) -> bool {
    forall|i: int| 0 <= i < list.len() ==> shortcut_ok(ranks, #[trigger] list[i])
}

/// The hierarchy between two contractions, `count` nodes contracted: every
/// arc of the working adjacency stands at both its ends, `Forward` links
/// first; contracted nodes have no links; ranks and shortcuts are in order.
pub open spec fn steady(ch: &CH, count: int) -> bool {
    &&& ch.wf()
    &&& all_grouped(ch.adj())
    &&& paired(ch.adj())
    &&& isolated(ch.adj(), ch.ranks())
    &&& ranked(ch.ranks(), count)
    &&& shortcuts_ok(ch.ranks(), ch.shortcuts())
}

/// No node is contracted where every rank is `u32::MAX`.
pub proof fn lemma_none_ranked(ranks: Seq<u32>)
    requires
        forall|u: int| 0 <= u < ranks.len() ==> #[trigger] ranks[u] == u32::MAX,
    ensures
        ranked(ranks, 0),
{
    assert(contracted(ranks) =~= Set::<int>::empty());
}

/// No more nodes are contracted than there are.
pub proof fn lemma_contracted_bound(ranks: Seq<u32>)
    ensures
        contracted(ranks).finite(),
        contracted(ranks).len() <= ranks.len(),
{
    let all = vstd::set_lib::set_int_range(0, ranks.len() as int);
    vstd::set_lib::lemma_int_range(0, ranks.len() as int);
    assert(contracted(ranks).subset_of(all));
    vstd::set_lib::lemma_len_subset(contracted(ranks), all);
}

/// While a node has no rank, fewer nodes are contracted than there are.
pub proof fn lemma_contracted_room(ranks: Seq<u32>, key: int)
    requires
        0 <= key < ranks.len(),
        ranks[key] == u32::MAX,
    ensures
        contracted(ranks).finite(),
        contracted(ranks).len() < ranks.len(),
{
    let all = vstd::set_lib::set_int_range(0, ranks.len() as int);
    vstd::set_lib::lemma_int_range(0, ranks.len() as int);
    let others = all.remove(key);
    assert(contracted(ranks).subset_of(others));
    vstd::set_lib::lemma_len_subset(contracted(ranks), others);
}

/// Giving the next rank to a node that has none keeps the ranks in order.
pub proof fn lemma_rank_assigned(ranks: Seq<u32>, key: int, count: int)
    requires
        ranked(ranks, count),
        0 <= key < ranks.len(),
        ranks[key] == u32::MAX,
        count + 1 < u32::MAX,
    ensures
        ranked(ranks.update(key, (count + 1) as u32), count + 1),
{
    let next = ranks.update(key, (count + 1) as u32);
    assert(contracted(next) =~= contracted(ranks).insert(key));
    lemma_contracted_bound(next);
    assert forall|r: int| 1 <= r <= count + 1 implies #[trigger] rank_taken(next, r) by {
        if r <= count {
            assert(rank_taken(ranks, r));
            let u = choose|u: int| 0 <= u < ranks.len() && #[trigger] ranks[u] == r;
            assert(next[u] == r);
        } else {
            assert(next[key] == r);
        }
    }
    assert forall|u: int, v: int|
        0 <= u < next.len() && 0 <= v < next.len() && u != v && (#[trigger] next[u])
            != u32::MAX implies next[u] != (#[trigger] next[v]) by {
        if u == key {
            if v != key && ranks[v] != u32::MAX {
                assert(ranks[v] <= count);
            }
        } else {
            assert(ranks[u] != u32::MAX);
            assert(ranks[u] <= count);
            if v != key {
                assert(ranks[u] != ranks[v]);
            }
        }
    }
}

/// Shortcuts that are in order stay so when a node that has no rank gets the
/// next one.
pub proof fn lemma_shortcuts_stay_ok(
    ranks: Seq<u32>,
    list: Seq<CHContraction>,
    key: int,
    count: int,
)
    requires
        ranked(ranks, count),
        shortcuts_ok(ranks, list),
        0 <= key < ranks.len(),
        ranks[key] == u32::MAX,
        count + 1 < u32::MAX,
        forall|i: int|
            0 <= i < list.len() ==> (#[trigger] list[i]).snode_idx.0 < ranks.len()
                && list[i].enode_idx.0 < ranks.len() && list[i].mnode_idx.0 < ranks.len(),
    ensures
        shortcuts_ok(ranks.update(key, (count + 1) as u32), list),
{
    let next = ranks.update(key, (count + 1) as u32);
    assert forall|i: int| 0 <= i < list.len() implies shortcut_ok(next, #[trigger] list[i]) by {
        let c = list[i];
        assert(shortcut_ok(ranks, c));
        let m = c.mnode_idx.0 as int;
        assert(ranks[m] != u32::MAX);
        assert(ranks[m] <= count);
    }
}

/// A node that a link of `key` leads to still has links of its own.
pub proof fn lemma_neighbour_has_links(
    adj: Seq<Seq<LinkView>>,
    key: int,
    rest: Seq<LinkView>,
    i: int,
)
    requires
        paired_but(adj, key, rest),
        0 <= i < rest.len(),
        0 <= rest[i].to < adj.len(),
        rest[i].to != key,
    ensures
        adj[rest[i].to].len() > 0,
{
    let v = rest[i].to;
    let dir = rest[i].dir;
    lemma_costs_to_holds(rest, i);
    assert(costs_to(rest, v, dir) == costs_to(adj[v], key, dir.flipped()));
    lemma_costs_mean_link(adj[v], key, dir.flipped());
}

/// In a paired array, a node that a link leads to has links of its own.
pub proof fn lemma_target_has_links(adj: Seq<Seq<LinkView>>, u: int, i: int)
    requires
        paired(adj),
        in_range(adj),
        0 <= u < adj.len(),
        0 <= i < adj[u].len(),
    ensures
        adj[adj[u][i].to].len() > 0,
{
    let v = adj[u][i].to;
    assert(targets_within(adj[u], adj.len() as int));
    if v != u {
        crate::contraction::lemma_taken_out(adj, u);
        lemma_neighbour_has_links(adj.update(u, Seq::<LinkView>::empty()), u, adj[u], i);
    }
}

} // verus!
