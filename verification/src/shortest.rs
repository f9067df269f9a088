//! What a search knows while it runs, and why the costs it settles are the
//! cheapest.

use crate::adjacency::{in_range, targets_within};
use crate::dijkstra::{settled, walk_back, Cost, Entry, HeapEntry, Record, Search};
use crate::network::{IdxLinkDir, IdxNodeKey, LinkView, KEY_SPACE};
use crate::paths::{
    cheapest, costs_sane, is_way, leads, lemma_step_bounds, lemma_way_bounds, lemma_way_extend,
    nodes_of, step,
};
use vstd::multiset::*;
use vstd::prelude::*;

verus! {

/// The queue entry for node `key` at `cost` over `hop` hops.
pub open spec fn entry_of(cost: u32, hop: u16, key: u32) -> Entry {
    HeapEntry { cost, hop, key: IdxNodeKey(key) }
}

/// An entry for node `key` at `cost` waits in the queue.
pub open spec fn waits(queue: Multiset<Entry>, cost: u32, key: u32) -> bool {
    exists|h: u16| queue.contains(#[trigger] entry_of(cost, h, key))
}

/// The records after node `k` was settled.
pub open spec fn settle(recs: Map<u32, Record>, k: u32) -> Map<u32, Record> {
    recs.insert(k, Cost { prev_key: recs[k].prev_key, cost: recs[k].cost, visited: true })
}

/// The nodes whose cost is final.
pub open spec fn done(recs: Map<u32, Record>) -> Set<u32> {
    recs.dom().filter(|k: u32| recs[k].visited)
}

/// The record of node `k` is that of the source, or continues the record of
/// a settled node by one link; `idx` numbers the settled nodes so that each
/// comes after the node before it.
pub open spec fn record_ok(
    adj: Seq<Seq<LinkView>>,
    dir: IdxLinkDir,
    src: int,
    recs: Map<u32, Record>,
    idx: Map<u32, nat>,
    k: u32,
) -> bool {
    let r = recs[k];
    let p = r.prev_key.0;
    &&& (k as int) < adj.len()
    &&& (p == k ==> k == src && r.cost == 0)
    &&& (p != k ==> settled(recs, p) && step(adj, dir, p as int, k as int, r.cost - recs[p].cost)
        && (r.visited ==> idx[p] < idx[k]))
    &&& (r.visited ==> idx[k] < done(recs).len())
}

/// Every record is in order.
pub open spec fn tree_ok(
    adj: Seq<Seq<LinkView>>,
    dir: IdxLinkDir,
    src: int,
    recs: Map<u32, Record>,
    idx: Map<u32, nat>,
) -> bool {
    forall|k: u32| recs.contains_key(k) ==> #[trigger] record_ok(adj, dir, src, recs, idx, k)
}

/// The queue and the records agree: every entry belongs to a recorded node
/// and costs no less than its record, and every node that is not settled has
/// an entry at the cost of its record.
pub open spec fn queue_ok(recs: Map<u32, Record>, queue: Multiset<Entry>) -> bool {
    &&& forall|x: Entry| #[trigger]
        queue.contains(x) ==> recs.contains_key(x.key.0) && recs[x.key.0].cost <= x.cost && x.cost
            < u32::MAX
    &&& forall|k: u32|
        recs.contains_key(k) && !recs[k].visited ==> #[trigger] waits(queue, recs[k].cost, k)
}

/// The search runs from `src` over `adj` in direction `dir`, and what it has
/// recorded are costs of ways that exist.
pub open spec fn rooted(adj: Seq<Seq<LinkView>>, dir: IdxLinkDir, src: int, s: &Search) -> bool {
    &&& s.wf()
    &&& 0 <= src < adj.len() <= KEY_SPACE
    &&& in_range(adj)
    &&& costs_sane(adj)
    &&& s.records().contains_key(src as u32)
    &&& s.records()[src as u32].cost == 0
    &&& exists|idx: Map<u32, nat>| tree_ok(adj, dir, src, s.records(), idx)
}

/// The search is rooted, and its queue agrees with its records.
pub open spec fn sound(adj: Seq<Seq<LinkView>>, dir: IdxLinkDir, src: int, s: &Search) -> bool {
    &&& rooted(adj, dir, src, s)
    &&& queue_ok(s.records(), s.queue())
}

/// The link `i` of the settled node `k` has been followed: where it leads is
/// recorded at no more than the cost over that link, where that is below
/// `bound`.
pub open spec fn relaxed(
    adj: Seq<Seq<LinkView>>,
    dir: IdxLinkDir,
    recs: Map<u32, Record>,
    k: u32,
    i: int,
    bound: int,
) -> bool {
    let link = adj[k as int][i];
    link.dir == dir && recs[k].cost + link.cost < bound ==> recs.contains_key(link.to as u32)
        && recs[link.to as u32].cost <= recs[k].cost + link.cost
}

/// Settled costs are the cheapest, settled nodes cost no more than the
/// others, and the links of settled nodes have been followed as far as costs
/// stay below `bound`: all of them, but for node `cur`, of which the first
/// `upto`.
pub open spec fn exact_ok(
    adj: Seq<Seq<LinkView>>,
    dir: IdxLinkDir,
    src: int,
    recs: Map<u32, Record>,
    cur: int,
    upto: int,
    bound: int,
) -> bool {
    &&& forall|k: u32| #[trigger]
        settled(recs, k) ==> cheapest(adj, dir, src, k as int, recs[k].cost as int)
    &&& forall|k: u32, j: u32|
        #![trigger settled(recs, k), recs[j]]
        settled(recs, k) && recs.contains_key(j) && !recs[j].visited ==> recs[k].cost
            <= recs[j].cost
    &&& forall|k: u32, i: int|
        settled(recs, k) && 0 <= i < adj[k as int].len() && (k != cur || i < upto)
            ==> #[trigger] relaxed(adj, dir, recs, k, i, bound)
}

/// No limit is set on hops or on the number of entries.
pub open spec fn unlimited(s: &Search) -> bool {
    &&& s.heap_limit == usize::MAX
    &&& s.hop_limit == u16::MAX
    &&& s.added() < usize::MAX
}

/// No queued entry counts more hops than nodes are settled.
pub open spec fn shallow(recs: Map<u32, Record>, queue: Multiset<Entry>) -> bool {
    forall|x: Entry| #[trigger] queue.contains(x) ==> x.hop <= done(recs).len()
}

/// The array has so few nodes that no way of a search reaches the largest
/// hop limit: a search without a hop limit then turns no step away.
pub open spec fn small(adj: Seq<Seq<LinkView>>) -> bool {
    adj.len() <= u16::MAX
}

/// No cheapest way from `src` that passes no node twice has `u16::MAX`
/// links or more: a search without a hop limit then turns no step away.
pub open spec fn low_ways(adj: Seq<Seq<LinkView>>, dir: IdxLinkDir, src: int) -> bool {
    forall|nodes: Seq<int>, v: int, c: int|
        #[trigger] leads(adj, dir, nodes, src, v, c) && cheapest(adj, dir, src, v, c)
            && nodes.no_duplicates() ==> nodes.len() <= u16::MAX
}

/// A search from `src` without a hop limit turns no step away: the array is
/// small, or no cheapest way from `src` reaches the largest hop limit.
pub open spec fn calm(adj: Seq<Seq<LinkView>>, dir: IdxLinkDir, src: int) -> bool {
    small(adj) || low_ways(adj, dir, src)
}

/// All nodes of the way but the last are settled.
pub open spec fn settled_before(recs: Map<u32, Record>, nodes: Seq<int>) -> bool {
    forall|i: int| 0 <= i < nodes.len() - 1 ==> settled(recs, (#[trigger] nodes[i]) as u32)
}

/// The entry stands for a way from `src` to its node at its cost that counts
/// as many links as the entry counts hops, passes no node twice and runs
/// over settled nodes up to its end.
pub open spec fn footed(
    adj: Seq<Seq<LinkView>>,
    dir: IdxLinkDir,
    src: int,
    recs: Map<u32, Record>,
    x: Entry,
) -> bool {
    exists|nodes: Seq<int>|
        #[trigger] leads(adj, dir, nodes, src, x.key.0 as int, x.cost as int) && nodes.len() == x.hop
            + 1 && nodes.no_duplicates() && settled_before(recs, nodes)
}

/// Every queued entry stands for a way of as many links as it counts hops.
pub open spec fn traced(
    adj: Seq<Seq<LinkView>>,
    dir: IdxLinkDir,
    src: int,
    recs: Map<u32, Record>,
    queue: Multiset<Entry>,
) -> bool {
    forall|x: Entry| #[trigger] queue.contains(x) ==> footed(adj, dir, src, recs, x)
}

/// The search is sound and limited by cost alone; and where it turns no
/// step away for the hops it counts, it has settled only cheapest costs.
pub open spec fn exact(adj: Seq<Seq<LinkView>>, dir: IdxLinkDir, src: int, s: &Search) -> bool {
    &&& sound(adj, dir, src, s)
    &&& unlimited(s)
    &&& (calm(adj, dir, src) ==> exact_ok(adj, dir, src, s.records(), -1, 0, s.cost_limit as int))
    &&& (calm(adj, dir, src) && small(adj) ==> shallow(s.records(), s.queue()))
    &&& (calm(adj, dir, src) && !small(adj) ==> traced(adj, dir, src, s.records(), s.queue()))
}

/// An entry keeps the way it stands for where more nodes are settled.
pub proof fn lemma_footed_stays(
    adj: Seq<Seq<LinkView>>,
    dir: IdxLinkDir,
    src: int,
    before: Map<u32, Record>,
    after: Map<u32, Record>,
    x: Entry,
)
    requires
        footed(adj, dir, src, before, x),
        forall|j: u32| #[trigger] settled(before, j) ==> settled(after, j),
    ensures
        footed(adj, dir, src, after, x),
{
    let nodes = choose|nodes: Seq<int>|
        #[trigger] leads(adj, dir, nodes, src, x.key.0 as int, x.cost as int) && nodes.len() == x.hop
            + 1 && nodes.no_duplicates() && settled_before(before, nodes);
    assert forall|i: int| 0 <= i < nodes.len() - 1 implies settled(after, (#[trigger] nodes[i]) as u32) by {
        assert(settled(before, nodes[i] as u32));
    }
    assert(leads(adj, dir, nodes, src, x.key.0 as int, x.cost as int) && settled_before(after, nodes));
}

/// The entry queued for the step over a link from a settled node stands for
/// the way to that node with the link at its end.
pub proof fn lemma_footed_next(
    adj: Seq<Seq<LinkView>>,
    dir: IdxLinkDir,
    src: int,
    recs: Map<u32, Record>,
    trail: Seq<int>,
    e: Entry,
    t: int,
    w: int,
    x: Entry,
)
    requires
        leads(adj, dir, trail, src, e.key.0 as int, e.cost as int),
        trail.len() == e.hop + 1,
        trail.no_duplicates(),
        forall|i: int| 0 <= i < trail.len() ==> settled(recs, (#[trigger] trail[i]) as u32),
        forall|i: int| 0 <= i < trail.len() ==> 0 <= (#[trigger] trail[i]) < 0x1_0000_0000,
        step(adj, dir, e.key.0 as int, t, w),
        0 <= t < 0x1_0000_0000,
        !settled(recs, t as u32),
        e.hop < u16::MAX,
        x.key.0 == t,
        x.cost == e.cost + w,
        x.hop == e.hop + 1,
    ensures
        footed(adj, dir, src, recs, x),
{
    let nodes = trail.push(t);
    crate::paths::lemma_way_extend(adj, dir, trail, e.cost as int, t, w);
    assert forall|i: int, j: int| 0 <= i < nodes.len() && 0 <= j < nodes.len() && i != j implies nodes[i]
        != nodes[j] by {
        if i < trail.len() && j < trail.len() {
            assert(trail[i] != trail[j]);
        } else if i < trail.len() {
            assert(settled(recs, trail[i] as u32));
        } else {
            assert(settled(recs, trail[j] as u32));
        }
    }
    assert forall|i: int| 0 <= i < nodes.len() - 1 implies settled(recs, (#[trigger] nodes[i]) as u32) by {
        assert(nodes[i] == trail[i]);
    }
    assert(nodes[0] == trail[0]);
    assert(leads(adj, dir, nodes, src, x.key.0 as int, x.cost as int) && nodes.len() == x.hop + 1
        && nodes.no_duplicates() && settled_before(recs, nodes));
}

/// What is known below one bound is known below a lower one.
pub proof fn lemma_exact_lower(
    adj: Seq<Seq<LinkView>>,
    dir: IdxLinkDir,
    src: int,
    recs: Map<u32, Record>,
    bound: int,
    lower: int,
)
    requires
        exact_ok(adj, dir, src, recs, -1, 0, bound),
        lower <= bound,
    ensures
        exact_ok(adj, dir, src, recs, -1, 0, lower),
{
    assert forall|k: u32, i: int|
        settled(recs, k) && 0 <= i < adj[k as int].len() implies #[trigger] relaxed(
        adj,
        dir,
        recs,
        k,
        i,
        lower,
    ) by {
        assert(relaxed(adj, dir, recs, k, i, bound));
    }
}

/// Along any way from the source that costs less than the bound, the search
/// has either settled the end at no more than the way's cost, or still has
/// an open node at no more than that.
pub proof fn lemma_frontier(
    adj: Seq<Seq<LinkView>>,
    dir: IdxLinkDir,
    src: int,
    recs: Map<u32, Record>,
    nodes: Seq<int>,
    c: int,
    bound: int,
)
    requires
        0 <= src < adj.len() <= KEY_SPACE,
        in_range(adj),
        costs_sane(adj),
        recs.contains_key(src as u32),
        recs[src as u32].cost == 0,
        exact_ok(adj, dir, src, recs, -1, 0, bound),
        is_way(adj, dir, nodes, c),
        nodes[0] == src,
        c < bound,
    ensures
        0 <= nodes.last() < adj.len(),
        (settled(recs, nodes.last() as u32) && recs[nodes.last() as u32].cost <= c) || exists|
            y: u32,
        |
            recs.contains_key(y) && !(#[trigger] recs[y]).visited && recs[y].cost <= c,
    decreases nodes.len(),
{
    lemma_way_bounds(adj, dir, nodes, c);
    if nodes.len() == 1 {
        let s = src as u32;
        if !recs[s].visited {
            assert(recs.contains_key(s) && !recs[s].visited && recs[s].cost <= c);
        }
    } else {
        let w = choose|w: int|
            #[trigger] step(adj, dir, nodes[nodes.len() - 2], nodes.last(), w) && is_way(
                adj,
                dir,
                nodes.drop_last(),
                c - w,
            );
        let u = nodes[nodes.len() - 2];
        let v = nodes.last();
        lemma_step_bounds(adj, dir, u, v, w);
        assert(nodes.drop_last()[0] == nodes[0]);
        assert(nodes.drop_last().last() == u);
        lemma_frontier(adj, dir, src, recs, nodes.drop_last(), c - w, bound);
        if settled(recs, u as u32) && recs[u as u32].cost <= c - w {
            let j = choose|j: int|
                0 <= j < adj[u].len() && #[trigger] adj[u][j] == (LinkView {
                    to: v,
                    cost: w,
                    dir: dir,
                });
            assert(relaxed(adj, dir, recs, u as u32, j, bound));
            let t = v as u32;
            assert(recs.contains_key(t) && recs[t].cost <= c);
            if !recs[t].visited {
                assert(recs.contains_key(t) && !recs[t].visited && recs[t].cost <= c);
            }
        } else {
            let y = choose|y: u32|
                recs.contains_key(y) && !(#[trigger] recs[y]).visited && recs[y].cost <= c - w;
            assert(recs.contains_key(y) && !recs[y].visited && recs[y].cost <= c);
        }
    }
}

/// The way back from a settled node, read from its end, is a way from the
/// source to the node at the cost of the node's record.
pub proof fn lemma_trail(
    adj: Seq<Seq<LinkView>>,
    dir: IdxLinkDir,
    src: int,
    recs: Map<u32, Record>,
    idx: Map<u32, nat>,
    key: IdxNodeKey,
    fuel: nat,
)
    requires
        tree_ok(adj, dir, src, recs, idx),
        settled(recs, key.0),
        idx[key.0] < fuel,
    ensures
        leads(
            adj,
            dir,
            nodes_of(walk_back(recs, key, fuel).reverse()),
            src,
            key.0 as int,
            recs[key.0].cost as int,
        ),
    decreases fuel,
{
    let k = key.0;
    assert(record_ok(adj, dir, src, recs, idx, k));
    let r = recs[k];
    let back = walk_back(recs, key, fuel);
    if r.prev_key == key {
        assert(back == seq![key]);
        assert(nodes_of(back.reverse()) =~= seq![k as int]);
    } else {
        let p = r.prev_key;
        assert(p.0 != k);
        let rest = walk_back(recs, p, (fuel - 1) as nat);
        assert(back == seq![key] + rest);
        lemma_trail(adj, dir, src, recs, idx, p, (fuel - 1) as nat);
        let head = nodes_of(rest.reverse());
        assert(head.last() == p.0 as int);
        lemma_way_extend(adj, dir, head, recs[p.0].cost as int, k as int, r.cost - recs[p.0].cost);
        assert(nodes_of(back.reverse()) =~= head.push(k as int));
    }
}

/// There are no more settled nodes than records.
pub proof fn lemma_done_bounded(recs: Map<u32, Record>)
    requires
        recs.dom().finite(),
    ensures
        done(recs).finite(),
        done(recs).len() <= recs.len(),
{
    vstd::set_lib::lemma_len_subset(done(recs), recs.dom());
}

/// Settling a node adds it to the settled nodes.
pub proof fn lemma_done_grows(recs: Map<u32, Record>, k: u32)
    requires
        recs.dom().finite(),
        recs.contains_key(k),
        !recs[k].visited,
    ensures
        done(settle(recs, k)) == done(recs).insert(k),
        done(settle(recs, k)).len() == done(recs).len() + 1,
{
    lemma_done_bounded(recs);
    let after = settle(recs, k);
    assert(done(after) =~= done(recs).insert(k));
}

/// Recording an open node leaves the settled nodes as they are.
pub proof fn lemma_done_stays(recs: Map<u32, Record>, k: u32, r: Record)
    requires
        !r.visited,
        !settled(recs, k),
    ensures
        done(recs.insert(k, r)) == done(recs),
{
    assert(done(recs.insert(k, r)) =~= done(recs));
}

/// What holds when `next` has handed out entry `e`: its cost is that of its
/// record, and no open node is recorded at less.
pub proof fn lemma_popped(
    recs: Map<u32, Record>,
    before: Multiset<Entry>,
    after: Multiset<Entry>,
    e: Entry,
)
    requires
        queue_ok(recs, before),
        before.contains(e),
        !settled(recs, e.key.0),
        after.count(e) == before.count(e) - 1,
        forall|x: Entry| #[trigger] after.contains(x) ==> e.cost <= x.cost,
        forall|x: Entry|
            x != e && #[trigger] after.count(x) < before.count(x) ==> settled(recs, x.key.0)
                && x.cost <= e.cost,
    ensures
        recs.contains_key(e.key.0),
        recs[e.key.0].cost == e.cost,
        forall|y: u32|
            recs.contains_key(y) && !(#[trigger] recs[y]).visited ==> e.cost <= recs[y].cost,
        forall|y: u32|
            recs.contains_key(y) && !recs[y].visited && y != e.key.0 ==> #[trigger] waits(
                after,
                recs[y].cost,
                y,
            ),
{
    assert forall|y: u32| recs.contains_key(y) && !(#[trigger] recs[y]).visited implies e.cost
        <= recs[y].cost && (y != e.key.0 ==> waits(after, recs[y].cost, y)) by {
        assert(waits(before, recs[y].cost, y));
        let h = choose|h: u16| before.contains(#[trigger] entry_of(recs[y].cost, h, y));
        let z = entry_of(recs[y].cost, h, y);
        if z != e {
            if after.count(z) < before.count(z) {
                assert(settled(recs, z.key.0));
            }
            assert(after.contains(z));
        }
    }
    let k = e.key.0;
    assert(recs.contains_key(k));
    assert(!recs[k].visited);
}

/// Settling the node of the entry that `next` handed out keeps the records
/// in order.
pub proof fn lemma_settle_tree(
    adj: Seq<Seq<LinkView>>,
    dir: IdxLinkDir,
    src: int,
    recs: Map<u32, Record>,
    idx: Map<u32, nat>,
    k: u32,
)
    requires
        recs.dom().finite(),
        tree_ok(adj, dir, src, recs, idx),
        recs.contains_key(k),
        !recs[k].visited,
    ensures
        tree_ok(
            adj,
            dir,
            src,
            settle(recs, k),
            idx.insert(k, done(recs).len()),
        ),
{
    let after = settle(recs, k);
    let idx2 = idx.insert(k, done(recs).len());
    lemma_done_grows(recs, k);
    assert forall|j: u32| after.contains_key(j) implies #[trigger] record_ok(
        adj,
        dir,
        src,
        after,
        idx2,
        j,
    ) by {
        assert(record_ok(adj, dir, src, recs, idx, j));
        let p = recs[j].prev_key.0;
        if p != j {
            assert(record_ok(adj, dir, src, recs, idx, p));
            assert(p != k);
        }
    }
}

/// Settling the node of the entry that `next` handed out keeps queue and
/// records in agreement.
pub proof fn lemma_settle_queue(
    recs: Map<u32, Record>,
    before: Multiset<Entry>,
    after: Multiset<Entry>,
    e: Entry,
)
    requires
        queue_ok(recs, before),
        after.subset_of(before),
        recs.contains_key(e.key.0),
        forall|y: u32|
            recs.contains_key(y) && !recs[y].visited && y != e.key.0 ==> #[trigger] waits(
                after,
                recs[y].cost,
                y,
            ),
    ensures
        queue_ok(settle(recs, e.key.0), after),
{
    let k = e.key.0;
    let recs2 = settle(recs, k);
    assert forall|x: Entry| #[trigger] after.contains(x) implies recs2.contains_key(x.key.0)
        && recs2[x.key.0].cost <= x.cost && x.cost < u32::MAX by {
        assert(before.contains(x));
    }
    assert forall|y: u32| recs2.contains_key(y) && !recs2[y].visited implies #[trigger] waits(
        after,
        recs2[y].cost,
        y,
    ) by {
        assert(y != k);
        assert(waits(after, recs[y].cost, y));
    }
}

/// Settling the node of the entry that `next` handed out, at a cost that no
/// open node undercuts and no way to it, keeps what is known of the settled
/// nodes; the links of the new node are still to be followed.
pub proof fn lemma_settle_exact(
    adj: Seq<Seq<LinkView>>,
    dir: IdxLinkDir,
    src: int,
    recs: Map<u32, Record>,
    k: u32,
    bound: int,
)
    requires
        exact_ok(adj, dir, src, recs, -1, 0, bound),
        recs.contains_key(k),
        !recs[k].visited,
        cheapest(adj, dir, src, k as int, recs[k].cost as int),
        forall|y: u32|
            recs.contains_key(y) && !(#[trigger] recs[y]).visited ==> recs[k].cost <= recs[y].cost,
    ensures
        exact_ok(adj, dir, src, settle(recs, k), k as int, 0, bound),
        forall|j: u32| #[trigger]
            settled(settle(recs, k), j) ==> settle(recs, k)[j].cost <= recs[k].cost,
{
    let after = settle(recs, k);
    assert forall|j: u32| #[trigger] settled(after, j) implies cheapest(
        adj,
        dir,
        src,
        j as int,
        after[j].cost as int,
    ) && after[j].cost <= recs[k].cost by {
        if j != k {
            assert(settled(recs, j));
            assert(recs[k] == recs[k]);
        }
    }
    assert forall|a: u32, b: u32|
        #![trigger settled(after, a), after[b]]
        settled(after, a) && after.contains_key(b) && !after[b].visited implies after[a].cost
        <= after[b].cost by {
        assert(b != k);
        assert(!recs[b].visited);
        if a != k {
            assert(settled(recs, a));
        }
    }
    assert forall|a: u32, i: int|
        settled(after, a) && 0 <= i < adj[a as int].len() && (a != k
            || i < 0) implies #[trigger] relaxed(adj, dir, after, a, i, bound) by {
        assert(settled(recs, a));
        assert(relaxed(adj, dir, recs, a, i, bound));
    }
}

/// Whether following link `i` of node `k` with entry `e` records anything,
/// the records stay in order, the queue agrees with them, and the link counts
/// as followed.
pub proof fn lemma_relax(
    adj: Seq<Seq<LinkView>>,
    dir: IdxLinkDir,
    src: int,
    s0: &Search,
    s1: &Search,
    idx: Map<u32, nat>,
    e: Entry,
    i: int,
    next_cost: u32,
    taken: bool,
)
    requires
        0 <= src < adj.len() <= KEY_SPACE,
        in_range(adj),
        costs_sane(adj),
        s0.wf(),
        tree_ok(adj, dir, src, s0.records(), idx),
        queue_ok(s0.records(), s0.queue()),
        s0.records().contains_key(src as u32),
        s0.records()[src as u32].cost == 0,
        settled(s0.records(), e.key.0),
        s0.records()[e.key.0].cost == e.cost,
        (e.key.0 as int) < adj.len(),
        0 <= i < adj[e.key.0 as int].len(),
        adj[e.key.0 as int][i].dir == dir,
        next_cost == e.cost + adj[e.key.0 as int][i].cost,
        taken == s0.admits(&e, IdxNodeKey(adj[e.key.0 as int][i].to as u32), next_cost),
        taken ==> {
            &&& s1.records() == s0.records().insert(
                adj[e.key.0 as int][i].to as u32,
                Cost { prev_key: e.key, cost: next_cost, visited: false },
            )
            &&& s1.queue() == s0.queue().insert(
                HeapEntry {
                    key: IdxNodeKey(adj[e.key.0 as int][i].to as u32),
                    hop: (e.hop + 1) as u16,
                    cost: next_cost,
                },
            )
        },
        !taken ==> s1.records() == s0.records() && s1.queue() == s0.queue(),
    ensures
        tree_ok(adj, dir, src, s1.records(), idx),
        queue_ok(s1.records(), s1.queue()),
        s1.records().contains_key(src as u32),
        s1.records()[src as u32].cost == 0,
        settled(s1.records(), e.key.0),
        s1.records()[e.key.0].cost == e.cost,
        forall|j: u32| settled(s0.records(), j) <==> #[trigger] settled(s1.records(), j),
        forall|j: u32|
            #[trigger] settled(s0.records(), j) ==> s1.records()[j] == s0.records()[j],
        forall|j: u32| s0.records().contains_key(j) ==> #[trigger] s1.records().contains_key(j),
        forall|j: u32|
            s0.records().contains_key(j) ==> (#[trigger] s1.records()[j]).cost
                <= s0.records()[j].cost,
{
    let k = e.key.0;
    let link = adj[k as int][i];
    assert(record_ok(adj, dir, src, s0.records(), idx, k));
    assert(targets_within(adj[k as int], adj.len() as int));
    let t = link.to as u32;
    let r0 = s0.records();
    let r1 = s1.records();
    if taken {
        let rec = Cost { prev_key: e.key, cost: next_cost, visited: false };
        let ent = HeapEntry { key: IdxNodeKey(t), hop: (e.hop + 1) as u16, cost: next_cost };
        assert(!settled(r0, t));
        assert(t != k);
        lemma_done_stays(r0, t, rec);
        assert(step(adj, dir, k as int, t as int, link.cost)) by {
            assert(adj[k as int][i] == (LinkView { to: t as int, cost: link.cost, dir: dir }));
        }
        assert forall|j: u32| r1.contains_key(j) implies #[trigger] record_ok(
            adj,
            dir,
            src,
            r1,
            idx,
            j,
        ) by {
            if j == t {
            } else {
                assert(record_ok(adj, dir, src, r0, idx, j));
                let p = r0[j].prev_key.0;
                if p != j {
                    assert(p != t);
                }
            }
        }
        assert(t != src as u32) by {
            if t == src as u32 {
                assert(r0.contains_key(t));
                assert(next_cost < r0[t].cost);
            }
        }
        assert forall|x: Entry| #[trigger] s1.queue().contains(x) implies r1.contains_key(x.key.0)
            && r1[x.key.0].cost <= x.cost && x.cost < u32::MAX by {
            if x != ent {
                assert(s0.queue().contains(x));
            }
        }
        assert forall|y: u32| r1.contains_key(y) && !r1[y].visited implies #[trigger] waits(
            s1.queue(),
            r1[y].cost,
            y,
        ) by {
            if y == t {
                assert(ent == entry_of(next_cost, (e.hop + 1) as u16, t));
                assert(s1.queue().contains(entry_of(next_cost, (e.hop + 1) as u16, t)));
            } else {
                assert(waits(s0.queue(), r0[y].cost, y));
                let h = choose|h: u16| s0.queue().contains(#[trigger] entry_of(r0[y].cost, h, y));
                assert(s1.queue().contains(entry_of(r0[y].cost, h, y)));
            }
        }
    }
}

/// Following link `i` of the node being expanded keeps what is known of the
/// settled nodes, and the link counts as followed.
pub proof fn lemma_relax_exact(
    adj: Seq<Seq<LinkView>>,
    dir: IdxLinkDir,
    src: int,
    s0: &Search,
    s1: &Search,
    e: Entry,
    i: int,
)
    requires
        0 <= src < adj.len() <= KEY_SPACE,
        in_range(adj),
        costs_sane(adj),
        unlimited(s0),
        (e.key.0 as int) < adj.len(),
        exact_ok(adj, dir, src, s0.records(), e.key.0 as int, i, s0.cost_limit as int),
        settled(s0.records(), e.key.0),
        s0.records()[e.key.0].cost == e.cost,
        forall|j: u32| #[trigger] settled(s0.records(), j) ==> s0.records()[j].cost <= e.cost,
        e.hop < u16::MAX,
        0 <= i < adj[e.key.0 as int].len(),
        adj[e.key.0 as int][i].dir == dir ==> {
            let t = adj[e.key.0 as int][i].to as u32;
            let next_cost = e.cost + adj[e.key.0 as int][i].cost;
            if next_cost < u32::MAX {
                let taken = s0.admits(&e, IdxNodeKey(t), next_cost as u32);
                &&& taken ==> s1.records() == s0.records().insert(
                    t,
                    Cost { prev_key: e.key, cost: next_cost as u32, visited: false },
                )
                &&& !taken ==> s1.records() == s0.records()
            } else {
                s1.records() == s0.records()
            }
        },
        adj[e.key.0 as int][i].dir != dir ==> s1.records() == s0.records(),
    ensures
        exact_ok(adj, dir, src, s1.records(), e.key.0 as int, i + 1, s0.cost_limit as int),
        forall|j: u32| #[trigger] settled(s1.records(), j) ==> s1.records()[j].cost <= e.cost,
{
    let k = e.key.0;
    let link = adj[k as int][i];
    assert(targets_within(adj[k as int], adj.len() as int));
    assert(0 <= link.cost);
    let t = link.to as u32;
    let r0 = s0.records();
    let r1 = s1.records();
    let changed = link.dir == dir && e.cost + link.cost < u32::MAX && s0.admits(
        &e,
        IdxNodeKey(t),
        (e.cost + link.cost) as u32,
    );
    if changed {
        assert(!settled(r0, t));
    }
    assert forall|j: u32| settled(r1, j) <==> settled(r0, j) by {}
    assert forall|j: u32| #[trigger] settled(r1, j) implies cheapest(
        adj,
        dir,
        src,
        j as int,
        r1[j].cost as int,
    ) && r1[j].cost <= e.cost by {
        assert(settled(r0, j));
    }
    assert forall|a: u32, b: u32|
        #![trigger settled(r1, a), r1[b]]
        settled(r1, a) && r1.contains_key(b) && !r1[b].visited implies r1[a].cost
        <= r1[b].cost by {
        assert(settled(r0, a));
        if changed && b == t {
            assert(r0[a].cost <= e.cost);
        } else {
            assert(r0.contains_key(b) && !r0[b].visited);
        }
    }
    assert forall|a: u32, n: int|
        settled(r1, a) && 0 <= n < adj[a as int].len() && (a != k || n < i
            + 1) implies #[trigger] relaxed(adj, dir, r1, a, n, s0.cost_limit as int) by {
        assert(settled(r0, a));
        if a == k && n == i {
            if link.dir == dir && e.cost + link.cost < s0.cost_limit {
                if !changed {
                    assert(r0.contains_key(t));
                    if r0[t].visited {
                        assert(settled(r0, t));
                    }
                }
            }
        } else {
            assert(relaxed(adj, dir, r0, a, n, s0.cost_limit as int));
            let l2 = adj[a as int][n];
            if l2.dir == dir && r0[a].cost + l2.cost < s0.cost_limit {
                assert(r0.contains_key(l2.to as u32));
            }
        }
    }
}

/// The steps from entry `e` over `len` links are within the limits on hops
/// and on entries, and no settled node costs more than `e`.
pub open spec fn ample(s: &Search, e: Entry, len: int) -> bool {
    &&& s.added() + len <= s.heap_limit
    &&& e.hop < s.hop_limit
    &&& forall|j: u32| #[trigger] settled(s.records(), j) ==> s.records()[j].cost <= e.cost
}

/// The first `upto` links of the settled node `k` have been followed.
pub open spec fn all_relaxed(
    adj: Seq<Seq<LinkView>>,
    dir: IdxLinkDir,
    recs: Map<u32, Record>,
    k: u32,
    upto: int,
    bound: int,
) -> bool {
    forall|i: int| 0 <= i < upto && i < adj[k as int].len() ==> #[trigger] relaxed(adj, dir, recs, k, i, bound)
}

/// Following link `i` of the node being expanded, within the limits on hops
/// and on entries, makes the link count as followed and keeps the links
/// before it followed.
pub proof fn lemma_relax_ample(
    adj: Seq<Seq<LinkView>>,
    dir: IdxLinkDir,
    s0: &Search,
    s1: &Search,
    e: Entry,
    i: int,
)
    requires
        in_range(adj),
        costs_sane(adj),
        (e.key.0 as int) < adj.len(),
        settled(s0.records(), e.key.0),
        s0.records()[e.key.0].cost == e.cost,
        forall|j: u32| #[trigger] settled(s0.records(), j) ==> s0.records()[j].cost <= e.cost,
        s0.added() < s0.heap_limit,
        e.hop < s0.hop_limit,
        all_relaxed(adj, dir, s0.records(), e.key.0, i, s0.cost_limit as int),
        0 <= i < adj[e.key.0 as int].len(),
        adj[e.key.0 as int][i].dir == dir ==> {
            let t = adj[e.key.0 as int][i].to as u32;
            let next_cost = e.cost + adj[e.key.0 as int][i].cost;
            if next_cost < u32::MAX {
                let taken = s0.admits(&e, IdxNodeKey(t), next_cost as u32);
                &&& taken ==> s1.records() == s0.records().insert(
                    t,
                    Cost { prev_key: e.key, cost: next_cost as u32, visited: false },
                )
                &&& !taken ==> s1.records() == s0.records()
            } else {
                s1.records() == s0.records()
            }
        },
        adj[e.key.0 as int][i].dir != dir ==> s1.records() == s0.records(),
    ensures
        all_relaxed(adj, dir, s1.records(), e.key.0, i + 1, s0.cost_limit as int),
        forall|j: u32| #[trigger] settled(s1.records(), j) ==> s1.records()[j].cost <= e.cost,
{
    let k = e.key.0;
    let link = adj[k as int][i];
    assert(targets_within(adj[k as int], adj.len() as int));
    assert(0 <= link.cost);
    let t = link.to as u32;
    let r0 = s0.records();
    let r1 = s1.records();
    let bound = s0.cost_limit as int;
    let changed = link.dir == dir && e.cost + link.cost < u32::MAX && s0.admits(
        &e,
        IdxNodeKey(t),
        (e.cost + link.cost) as u32,
    );
    if changed {
        assert(!settled(r0, t));
    }
    assert forall|j: u32| settled(r1, j) <==> settled(r0, j) by {}
    assert forall|j: u32| #[trigger] settled(r1, j) implies r1[j].cost <= e.cost by {
        assert(settled(r0, j));
    }
    assert forall|n: int| 0 <= n < i + 1 && n < adj[k as int].len() implies #[trigger] relaxed(
        adj,
        dir,
        r1,
        k,
        n,
        bound,
    ) by {
        if n == i {
            if link.dir == dir && e.cost + link.cost < bound {
                if !changed {
                    assert(r0.contains_key(t));
                    if r0[t].visited {
                        assert(settled(r0, t));
                    }
                }
            }
        } else {
            assert(relaxed(adj, dir, r0, k, n, bound));
            let l2 = adj[k as int][n];
            if l2.dir == dir && r0[k].cost + l2.cost < bound {
                assert(r0.contains_key(l2.to as u32));
            }
        }
    }
}

/// The way back from a settled node passes no node twice: each node on it
/// was settled before the one that follows it on the way back.
pub proof fn lemma_trail_simple(
    adj: Seq<Seq<LinkView>>,
    dir: IdxLinkDir,
    src: int,
    recs: Map<u32, Record>,
    idx: Map<u32, nat>,
    key: IdxNodeKey,
    fuel: nat,
)
    requires
        tree_ok(adj, dir, src, recs, idx),
        settled(recs, key.0),
    ensures
        walk_back(recs, key, fuel).no_duplicates(),
        forall|i: int|
            0 <= i < walk_back(recs, key, fuel).len() ==> idx[(#[trigger] walk_back(
                recs,
                key,
                fuel,
            )[i]).0] <= idx[key.0],
    decreases fuel,
{
    let k = key.0;
    assert(record_ok(adj, dir, src, recs, idx, k));
    let back = walk_back(recs, key, fuel);
    if fuel == 0 || recs[k].prev_key == key {
        assert(back =~= seq![key]);
    } else {
        let p = recs[k].prev_key;
        let rest = walk_back(recs, p, (fuel - 1) as nat);
        lemma_trail_simple(adj, dir, src, recs, idx, p, (fuel - 1) as nat);
        assert(back =~= seq![key] + rest);
        assert forall|i: int| 0 <= i < back.len() implies idx[(#[trigger] back[i]).0] <= idx[k] by {
            if i > 0 {
                assert(back[i] == rest[i - 1]);
            }
        }
        assert forall|i: int, j: int| 0 <= i < back.len() && 0 <= j < back.len() && i != j implies back[i]
            != back[j] by {
            if i > 0 {
                assert(back[i] == rest[i - 1]);
            }
            if j > 0 {
                assert(back[j] == rest[j - 1]);
            }
        }
    }
}

} // verus!
