//! Witness searches: before a node is contracted, a bounded search looks
//! for ways round it, and a shortcut is made wherever none is found that is
//! cheap enough.

use crate::adjacency::{
    costs_to, has_link, in_range, lemma_costs_to_found, lemma_costs_to_holds, links_view,
    targets_within,
};
use crate::ch::CH;
use crate::dijkstra::{settled, Entry, HeapEntry, Record, Search};
use crate::network::{IdxLink, IdxLinkDir, IdxNodeKey, LinkView, COST_SPAN};
use crate::paths::{costs_sane, leads, lemma_adj_of_costs, lemma_way_extend, step};
use crate::search::{
    expand, lemma_done_within, lemma_settled_way, lemma_started, lemma_without, without,
};
use crate::shortest::{all_relaxed, ample, done, queue_ok, relaxed, sound, tree_ok};
use crate::tables::{map_get, map_insert, map_with_capacity, set_contains, set_insert, set_new};
use fnv::{FnvHashMap, FnvHashSet};
use vstd::multiset::*;
use vstd::prelude::*;

verus! {

/// The most entries that a witness search may add to its queue.
pub const WITNESS_HEAP_LIMIT: usize = 1024;

/// Every arc between two nodes other than `key` stands at both its ends.
pub open spec fn paired_off(adj: Seq<Seq<LinkView>>, key: int) -> bool {
    forall|u: int, v: int|
        0 <= u < adj.len() && 0 <= v < adj.len() && u != key && v != key ==> #[trigger] costs_to(
            adj[u],
            v,
            IdxLinkDir::Forward,
        ) == costs_to(adj[v], u, IdxLinkDir::Backward)
}

/// There is a way along the arcs from `a` to `b` of cost `cost`.
pub open spec fn reaches(adj: Seq<Seq<LinkView>>, a: int, b: int, cost: int) -> bool {
    exists|nodes: Seq<int>| leads(adj, IdxLinkDir::Forward, nodes, a, b, cost)
}

/// Each cost below `u32::MAX` is the cost of a way from `start` to the node
/// its link leads to that does not leave node `avoid`.
pub open spec fn witnessed(
    adj: Seq<Seq<LinkView>>,
    avoid: IdxNodeKey,
    start: int,
    targets: Seq<LinkView>,
    costs: Seq<u32>,
) -> bool {
    &&& costs.len() == targets.len()
    &&& forall|i: int|
        0 <= i < costs.len() && (#[trigger] costs[i]) < u32::MAX && targets[i].to != avoid.0
            ==> reaches(without(adj, Some(avoid)), start, targets[i].to, costs[i] as int)
}

/// Each cost below `u32::MAX` of a target other than `start` and `avoid` is
/// made of the cost of a way from `start` that does not leave `avoid` and
/// the cost of an arc from where that way ends, a node other than `avoid`,
/// into the target.
pub open spec fn entered_along(
    adj: Seq<Seq<LinkView>>,
    avoid: IdxNodeKey,
    start: int,
    targets: Seq<LinkView>,
    costs: Seq<u32>,
) -> bool {
    forall|i: int|
        0 <= i < costs.len() && (#[trigger] costs[i]) < u32::MAX && targets[i].to != avoid.0
            && targets[i].to != start ==> exists|x: int, c2: int|
            x != avoid.0 && 0 <= c2 <= costs[i] && #[trigger] step(
                adj,
                IdxLinkDir::Forward,
                x,
                targets[i].to,
                c2,
            ) && reaches(without(adj, Some(avoid)), start, x, costs[i] - c2)
}

/// A way round `avoid` to a target other than the start ends with an arc
/// into the target from another node than `avoid`.
pub proof fn lemma_witnessed_enters(
    adj: Seq<Seq<LinkView>>,
    avoid: IdxNodeKey,
    start: int,
    targets: Seq<LinkView>,
    costs: Seq<u32>,
)
    requires
        in_range(adj),
        costs_sane(adj),
        avoid.0 < adj.len(),
        witnessed(adj, avoid, start, targets, costs),
    ensures
        entered_along(adj, avoid, start, targets, costs),
{
    let less = without(adj, Some(avoid));
    lemma_without(adj, Some(avoid));
    assert forall|i: int|
        0 <= i < costs.len() && (#[trigger] costs[i]) < u32::MAX && targets[i].to != avoid.0
            && targets[i].to != start implies exists|x: int, c2: int|
        x != avoid.0 && 0 <= c2 <= costs[i] && #[trigger] step(
            adj,
            IdxLinkDir::Forward,
            x,
            targets[i].to,
            c2,
        ) && reaches(less, start, x, costs[i] - c2) by {
        let t = targets[i].to;
        let cost = costs[i] as int;
        let nodes = choose|nodes: Seq<int>| leads(less, IdxLinkDir::Forward, nodes, start, t, cost);
        assert(nodes.len() >= 2);
        let w = choose|w: int|
            #[trigger] step(less, IdxLinkDir::Forward, nodes[nodes.len() - 2], nodes.last(), w)
                && crate::paths::is_way(less, IdxLinkDir::Forward, nodes.drop_last(), cost - w);
        let x = nodes[nodes.len() - 2];
        assert(less[avoid.0 as int].len() == 0);
        assert(x != avoid.0);
        assert(less[x] == adj[x]);
        crate::paths::lemma_way_bounds(less, IdxLinkDir::Forward, nodes.drop_last(), cost - w);
        crate::paths::lemma_step_bounds(less, IdxLinkDir::Forward, x, t, w);
        assert(nodes.drop_last()[0] == nodes[0]);
        assert(leads(less, IdxLinkDir::Forward, nodes.drop_last(), start, x, cost - w));
        assert(step(adj, IdxLinkDir::Forward, x, t, w) && reaches(less, start, x, costs[i] - w));
    }
}

/// No two links of the list lead to the same node.
pub open spec fn distinct_targets(list: Seq<LinkView>) -> bool {
    forall|i: int, j: int|
        0 <= i < j < list.len() ==> (#[trigger] list[i]).to != (#[trigger] list[j]).to
}

/// A `Backward` link at `t` to `n2` has its mate, the `Forward` link at `n2`
/// to `t`, also when the links of `avoid` are left aside.
pub proof fn lemma_tail_step(
    adj: Seq<Seq<LinkView>>,
    avoid: IdxNodeKey,
    n2: int,
    t: int,
    c: int,
)
    requires
        paired_off(adj, avoid.0 as int),
        0 <= n2 < adj.len(),
        0 <= t < adj.len(),
        n2 != avoid.0,
        t != avoid.0,
        has_link(adj[t], n2, c, IdxLinkDir::Backward),
    ensures
        step(without(adj, Some(avoid)), IdxLinkDir::Forward, n2, t, c),
{
    let j = choose|j: int|
        0 <= j < adj[t].len() && #[trigger] adj[t][j] == (LinkView {
            to: n2,
            cost: c,
            dir: IdxLinkDir::Backward,
        });
    lemma_costs_to_holds(adj[t], j);
    assert(costs_to(adj[n2], t, IdxLinkDir::Forward) == costs_to(
        adj[t],
        n2,
        IdxLinkDir::Backward,
    ));
    lemma_costs_to_found(adj[n2], t, IdxLinkDir::Forward, c);
    assert(without(adj, Some(avoid))[n2] == adj[n2]);
}

/// The largest cost among the links, 0 where there are none.
pub open spec fn dearest(list: Seq<LinkView>) -> int
    decreases list.len(),
{
    if list.len() == 0 {
        0
    } else {
        let rest = dearest(list.drop_last());
        if list.last().cost > rest {
            list.last().cost
        } else {
            rest
        }
    }
}

/// No link of the list costs more than the dearest.
pub proof fn lemma_dearest(list: Seq<LinkView>, m: int)
    requires
        0 <= m < list.len(),
    ensures
        list[m].cost <= dearest(list),
    decreases list.len(),
{
    if m < list.len() - 1 {
        lemma_dearest(list.drop_last(), m);
        assert(list.drop_last()[m] == list[m]);
    }
}

/// The largest cost among the links.
fn max_cost_of(links: &[IdxLink]) -> (max: u32)
    ensures
        max < COST_SPAN,
        max == dearest(links_view(links@)),
        forall|i: int| 0 <= i < links@.len() ==> (#[trigger] links@[i])@.cost <= max,
{
    let ghost list = links_view(links@);
    let mut max: u32 = 0;
    let mut i: usize = 0;
    assert(list.take(0) =~= Seq::<LinkView>::empty());
    while i < links.len()
        invariant
            i <= links.len(),
            list == links_view(links@),
            max < COST_SPAN,
            max == dearest(list.take(i as int)),
            forall|j: int| 0 <= j < i ==> (#[trigger] links@[j])@.cost <= max,
        decreases links.len() - i,
    {
        let c = links[i].cost();
        proof {
            assert(links@[i as int]@ == list[i as int]);
            assert(list.take(i + 1).drop_last() =~= list.take(i as int));
            assert(list.take(i + 1).last() == list[i as int]);
        }
        if c > max {
            max = c;
        }
        i += 1;
    }
    assert(list.take(links.len() as int) =~= list);
    max
}

/// As many costs as asked for, none of them found yet.
fn no_costs(len: usize) -> (costs: Vec<u32>)
    ensures
        costs@.len() == len,
        forall|i: int| 0 <= i < len ==> #[trigger] costs@[i] == u32::MAX,
{
    let mut costs: Vec<u32> = Vec::with_capacity(len);
    let mut i: usize = 0;
    while i < len
        invariant
            i <= len,
            costs@.len() == i,
            forall|j: int| 0 <= j < i ==> #[trigger] costs@[j] == u32::MAX,
        decreases len - i,
    {
        costs.push(u32::MAX);
        i += 1;
    }
    costs
}

impl<'a> CH<'a> {
    /// For each of `neighbors`, whose targets must differ, the cost at which
    /// a search from the node `from_link` leads to settles the neighbour's
    /// target without leaving `src`, over at most `hop_limit` links and below
    /// the cost of `from_link` plus the dearest neighbour; `u32::MAX` where
    /// the search does not get there. A way that it finds to a target other
    /// than the start ends with an arc into the target from another node
    /// than `src`. Where the start has fewer links than the search may add
    /// entries, each arc from the start straight to a target that costs
    /// less than the cost limit is found.
    pub fn dijkstra_contract_dist_backward1(
        &self,
        src: IdxNodeKey,
        from_link: IdxLink,
        neighbors: &[IdxLink],
        hop_limit: u16,
    ) -> (costs: Vec<u32>)
        requires
            self.wf(),
            src.0 < self.adj().len(),
            from_link@.to < self.adj().len(),
            targets_within(links_view(neighbors@), self.adj().len() as int),
            neighbors@.len() > 0,
            distinct_targets(links_view(neighbors@)),
        ensures
            witnessed(self.adj(), src, from_link@.to, links_view(neighbors@), costs@),
            entered_along(self.adj(), src, from_link@.to, links_view(neighbors@), costs@),
            forall|j: int|
                0 <= j < costs@.len() && (#[trigger] costs@[j]) < u32::MAX ==> costs@[j]
                    < from_link@.cost + dearest(links_view(neighbors@)),
            hop_limit >= 1 && from_link@.to != src.0 && self.adj()[from_link@.to].len()
                < WITNESS_HEAP_LIMIT ==> straight_seen(
                self.adj(),
                src,
                from_link@.to,
                links_view(neighbors@),
                from_link@.cost + dearest(links_view(neighbors@)),
                costs@,
            ),
    {
        let ghost full = self.adj();
        let ghost adj = without(full, Some(src));
        let ghost nb = links_view(neighbors@);
        let ghost n = full.len() as int;
        let ghost start = from_link@.to;
        let ghost top = from_link@.cost + dearest(nb);
        let ghost good = hop_limit >= 1 && start != src.0 && full[start].len() < WITNESS_HEAP_LIMIT;
        let dst_len = neighbors.len();
        let mut dsts_map: FnvHashMap<u32, usize> = map_with_capacity(0);
        let mut i: usize = 0;
        while i < dst_len
            invariant
                nb == links_view(neighbors@),
                dst_len == neighbors@.len(),
                i <= dst_len,
                forall|k: u32|
                    dsts_map@.contains_key(k) ==> (#[trigger] dsts_map@[k]) < i && nb[dsts_map@[k] as int].to
                        == k,
                forall|j: int| 0 <= j < i ==> dsts_map@.contains_key((#[trigger] nb[j]).to as u32),
            decreases dst_len - i,
        {
            let link = neighbors[i];
            assert(link@ == nb[i as int]);
            let ghost before = dsts_map@;
            map_insert(&mut dsts_map, link.enode_idx().0, i);
            proof {
                assert forall|j: int| 0 <= j < i + 1 implies dsts_map@.contains_key(
                    (#[trigger] nb[j]).to as u32,
                ) by {
                    if j < i {
                        assert(before.contains_key(nb[j].to as u32));
                    }
                }
            }
            i += 1;
        }
        let max_cost = max_cost_of(neighbors);
        let start_key = from_link.enode_idx();
        let mut search = Search::with_capacity(1024);
        search.heap_limit = WITNESS_HEAP_LIMIT;
        search.hop_limit = hop_limit;
        search.add_src(start_key);
        search.cost_limit = from_link.cost() + max_cost;
        let mut costs = no_costs(dst_len);
        let mut found: usize = 0;
        let ghost first = HeapEntry { key: start_key, hop: 0u16, cost: 0u32 };
        let ghost mut began = false;
        let ghost mut hit: Set<int> = Set::empty();
        proof {
            lemma_adj_of_costs(self.contractions@);
            lemma_without(full, Some(src));
            lemma_started(adj, IdxLinkDir::Forward, start_key, &search);
            assert(search.queue().contains(first));
            assert forall|x: Entry| #[trigger] search.queue().contains(x) implies x == first by {}
        }
        loop
            invariant_except_break
                sound(adj, IdxLinkDir::Forward, start, &search),
                !began ==> search.queue().contains(first) && !settled(search.records(), start_key.0)
                    && search.added() == 0 && (forall|x: Entry| #[trigger]
                    search.queue().contains(x) ==> x == first) && (forall|k: u32| #[trigger]
                    search.records().contains_key(k) ==> k == start_key.0),
            invariant
                self.wf(),
                full == self.adj(),
                adj == without(full, Some(src)),
                costs_sane(full),
                nb == links_view(neighbors@),
                targets_within(nb, full.len() as int),
                distinct_targets(nb),
                src.0 < full.len(),
                start == from_link@.to,
                start_key.0 == start,
                start < full.len(),
                top == from_link@.cost + dearest(nb),
                good == (hop_limit >= 1 && start != src.0 && full[start].len() < WITNESS_HEAP_LIMIT),
                first == (HeapEntry { key: start_key, hop: 0u16, cost: 0u32 }),
                dst_len == neighbors@.len(),
                found < dst_len,
                search.heap_limit == WITNESS_HEAP_LIMIT,
                search.hop_limit == hop_limit,
                forall|k: u32|
                    dsts_map@.contains_key(k) ==> (#[trigger] dsts_map@[k]) < dst_len
                        && nb[dsts_map@[k] as int].to == k,
                forall|j: int| 0 <= j < dst_len ==> dsts_map@.contains_key((#[trigger] nb[j]).to as u32),
                costs@.len() == dst_len,
                forall|j: int|
                    0 <= j < dst_len && (#[trigger] costs@[j]) < u32::MAX && nb[j].to != src.0
                        ==> reaches(adj, start, nb[j].to, costs@[j] as int),
                search.cost_limit == top,
                forall|j: int|
                    0 <= j < dst_len && (#[trigger] costs@[j]) < u32::MAX ==> costs@[j]
                        < search.cost_limit,
                began && good ==> straight_reached(full, src, start, nb, top, search.records()),
                told(nb, src, search.records(), costs@),
                hit.finite(),
                hit.len() == found,
                forall|j: int|
                    #[trigger] hit.contains(j) ==> 0 <= j < dst_len && settled(
                        search.records(),
                        nb[j].to as u32,
                    ) && nb[j].to != src.0,
            ensures
                good ==> straight_seen(full, src, start, nb, top, costs@),
            decreases adj.len() - done(search.records()).len(),
        {
            proof {
                let idx = choose|idx: Map<u32, nat>|
                    tree_ok(adj, IdxLinkDir::Forward, start, search.records(), idx);
                lemma_done_within(adj, IdxLinkDir::Forward, start, search.records(), idx);
            }
            let ghost recs0 = search.records();
            let ghost queue0 = search.queue();
            let ghost s0 = search;
            match expand(
                &self.contractions,
                &mut search,
                IdxLinkDir::Forward,
                Some(src),
                Ghost(start),
            ) {
                None => {
                    proof {
                        if good {
                            if !began {
                                if search.queue().contains(first) {
                                    assert(search.cost_limit <= first.cost);
                                } else {
                                    assert(search.queue().count(first) < queue0.count(first));
                                }
                                assert(top <= 0);
                            }
                            lemma_straight_told(
                                full,
                                src,
                                start,
                                nb,
                                top,
                                recs0,
                                queue0,
                                search.queue(),
                                costs@,
                                began,
                            );
                        }
                    }
                    break ;
                },
                Some(entry) => {
                    proof {
                        let idx = choose|idx: Map<u32, nat>|
                            tree_ok(adj, IdxLinkDir::Forward, start, search.records(), idx);
                        lemma_done_within(adj, IdxLinkDir::Forward, start, search.records(), idx);
                        if good {
                            if !began {
                                assert(entry == first);
                                assert(adj[start] == full[start]);
                                assert(ample(&s0, entry, adj[start].len() as int));
                                lemma_straight_reached(
                                    full,
                                    src,
                                    start,
                                    nb,
                                    top,
                                    search.records(),
                                );
                            } else {
                                assert forall|i: int, c: int|
                                    0 <= i < nb.len() && c < top && #[trigger] has_link(
                                        full[start],
                                        nb[i].to,
                                        c,
                                        IdxLinkDir::Forward,
                                    ) implies search.records().contains_key(nb[i].to as u32)
                                    && search.records()[nb[i].to as u32].cost <= c by {
                                    assert(recs0.contains_key(nb[i].to as u32));
                                }
                            }
                        }
                        assert forall|j: int| #[trigger] hit.contains(j) implies settled(
                            search.records(),
                            nb[j].to as u32,
                        ) && nb[j].to != entry.key.0 by {
                        assert(settled(recs0, nb[j].to as u32));
                        }
                        began = true;
                    }
                    let key = entry.key;
                    if key.0 == src.0 {
                        proof {
                            assert forall|j: int|
                                0 <= j < dst_len && settled(
                                    search.records(),
                                    (#[trigger] nb[j]).to as u32,
                                ) && nb[j].to != src.0 implies costs@[j] <= search.records()[nb[j].to as u32].cost by {
                                assert(done(search.records()).contains(nb[j].to as u32));
                                assert(done(recs0).contains(nb[j].to as u32));
                                assert(settled(recs0, nb[j].to as u32));
                                assert(search.records()[nb[j].to as u32] == recs0[nb[j].to as u32]);
                            }
                        }
                        continue ;
                    }
                    match map_get(&dsts_map, key.0) {
                        Some(idx) => {
                            let at = *idx;
                            proof {
                                lemma_settled_way(adj, IdxLinkDir::Forward, start, &search, key);
                            }
                            let ghost before = costs@;
                            costs.set(at, entry.cost);
                            proof {
                                assert forall|j: int|
                                    0 <= j < dst_len && settled(
                                        search.records(),
                                        (#[trigger] nb[j]).to as u32,
                                    ) && nb[j].to != src.0 implies costs@[j] <= search.records()[nb[j].to as u32].cost by {
                                    if nb[j].to as u32 == key.0 {
                                        assert(j == at);
                                    } else {
                                        assert(done(search.records()).contains(nb[j].to as u32));
                                        assert(done(recs0).contains(nb[j].to as u32));
                                        assert(settled(recs0, nb[j].to as u32));
                                        assert(search.records()[nb[j].to as u32] == recs0[nb[j].to as u32]);
                                        assert(j != at);
                                        assert(costs@[j] == before[j]);
                                    }
                                }
                                assert(!hit.contains(at as int));
                            }
                            if found + 1 == dst_len {
                                proof {
                                    if good {
                                        lemma_all_told(
                                            full,
                                            src,
                                            start,
                                            nb,
                                            top,
                                            search.records(),
                                            costs@,
                                            hit.insert(at as int),
                                        );
                                    }
                                }
                                break ;
                            }
                            found += 1;
                            proof {
                                hit = hit.insert(at as int);
                            }
                        },
                        None => {
                            proof {
                                assert forall|j: int|
                                    0 <= j < dst_len && settled(
                                        search.records(),
                                        (#[trigger] nb[j]).to as u32,
                                    ) && nb[j].to != src.0 implies costs@[j] <= search.records()[nb[j].to as u32].cost by {
                                    if nb[j].to as u32 != key.0 {
                                        assert(done(search.records()).contains(nb[j].to as u32));
                                        assert(done(recs0).contains(nb[j].to as u32));
                                        assert(settled(recs0, nb[j].to as u32));
                                        assert(search.records()[nb[j].to as u32] == recs0[nb[j].to as u32]);
                                    }
                                }
                            }
                        },
                    }
                },
            }
        }
        proof {
            lemma_adj_of_costs(self.contractions@);
            lemma_witnessed_enters(full, src, start, nb, costs@);
        }
        costs
    }

    /// For each of `neighbors`, the cost of the cheapest way that the search
    /// sees from the node `from_link` leads to, to the neighbour's target,
    /// without leaving `src`: a way that the search has settled, followed by
    /// one arc into the target. With a hop limit of 1 no search runs: the
    /// arcs from the start into the targets are looked up, and the ways over
    /// one node more, an arc from the start and an arc from there into a
    /// target. `u32::MAX` where no way is seen.
    /// An arc from the start straight into a target is always seen where it
    /// costs less than `from_link` and the dearest neighbour together. Each
    /// cost below `u32::MAX` is that of a way round `src` which ends with an
    /// arc into the target from another node than `src`; with a hop limit of
    /// 1 it is the least cost of a way round of one or two links.
    pub fn dijkstra_contract_dist_backward2(
        &self,
        src: IdxNodeKey,
        from_link: IdxLink,
        neighbors: &[IdxLink],
        hop_limit: u16,
    ) -> (costs: Vec<u32>)
        requires
            self.wf(),
            src.0 < self.adj().len(),
            from_link@.to < self.adj().len(),
            from_link@.to != src.0,
            targets_within(links_view(neighbors@), self.adj().len() as int),
            neighbors@.len() > 0,
            hop_limit >= 1,
            paired_off(self.adj(), src.0 as int),
        ensures
            witnessed(self.adj(), src, from_link@.to, links_view(neighbors@), costs@),
            direct_seen(
                self.adj(),
                from_link@.to,
                links_view(neighbors@),
                if hop_limit == 1 {
                    COST_SPAN as int
                } else {
                    from_link@.cost + dearest(links_view(neighbors@))
                },
                costs@,
            ),
            hop_limit >= 2 && self.adj()[from_link@.to].len() <= WITNESS_HEAP_LIMIT ==> two_seen(
                self.adj(),
                src,
                from_link@.to,
                links_view(neighbors@),
                from_link@.cost + dearest(links_view(neighbors@)),
                costs@,
            ),
            hop_limit == 1 ==> two_seen(
                self.adj(),
                src,
                from_link@.to,
                links_view(neighbors@),
                0x8000_0000,
                costs@,
            ),
            entered(self.adj(), src, from_link@.to, links_view(neighbors@), costs@),
            hop_limit == 1 ==> near(self.adj(), src, from_link@.to, links_view(neighbors@), costs@),
    {
        let ghost full = self.adj();
        let ghost good = hop_limit >= 2 && self.adj()[from_link@.to].len() <= WITNESS_HEAP_LIMIT;
        let ghost adj = without(full, Some(src));
        let ghost nb = links_view(neighbors@);
        let ghost start = from_link@.to;
        let dst_len = neighbors.len();
        let (bucket, backwards) = self.tails_of(neighbors);
        let max_cost = max_cost_of(neighbors);
        let mut costs = no_costs(dst_len);
        if bucket.len() == 0 {
            proof {
                assert forall|i: int, x: int, c1: int, c2: int|
                    0 <= i < nb.len() && #[trigger] has_link(
                        full[start],
                        x,
                        c1,
                        IdxLinkDir::Forward,
                    ) && #[trigger] has_link(full[nb[i].to], x, c2, IdxLinkDir::Backward) implies costs@[i]
                    <= c1 + c2 by {
                    lemma_tailed(full, nb, bucket@, i, x, c2);
                }
                assert forall|i: int, c: int|
                    0 <= i < nb.len() && #[trigger] has_link(
                        full[nb[i].to],
                        start,
                        c,
                        IdxLinkDir::Backward,
                    ) implies costs@[i] <= c by {
                    lemma_tailed(full, nb, bucket@, i, start, c);
                }
            }
            return costs;
        }
        let backward_min_cost = least_tail(&bucket);
        proof {
            lemma_adj_of_costs(self.contractions@);
            lemma_without(full, Some(src));
        }
        let start_key = from_link.enode_idx();
        if hop_limit == 1 {
            if set_contains(&backwards, start_key.0) {
                proof {
                    crate::faithful::lemma_reaches_self(adj, start);
                }
                lower_costs(
                    &bucket,
                    start_key,
                    0,
                    &mut costs,
                    Ghost(full),
                    Ghost(src),
                    Ghost(start),
                    Ghost(nb),
                );
            }
            proof {
                assert forall|i: int, c: int|
                    0 <= i < nb.len() && #[trigger] has_link(
                        full[nb[i].to],
                        start,
                        c,
                        IdxLinkDir::Backward,
                    ) implies costs@[i] <= c by {
                    lemma_tailed(full, nb, bucket@, i, start, c);
                }
            }
            // the ways over one node more: an arc from the start, then an arc
            // into a target
            let row = &self.contractions[start_key.index()];
            let mut m: usize = 0;
            while m < row.len()
                invariant
                    self.wf(),
                    full == self.adj(),
                    adj == without(full, Some(src)),
                    nb == links_view(neighbors@),
                    targets_within(nb, full.len() as int),
                    paired_off(full, src.0 as int),
                    src.0 < full.len(),
                    start == from_link@.to,
                    start_key.0 == start,
                    start != src.0,
                    start < full.len(),
                    links_view(row@) == full[start],
                    m <= row.len(),
                    tails_ok(full, nb, bucket@),
                    forall|b: int| 0 <= b < bucket@.len() ==> backwards@.contains((#[trigger] bucket@[b]).0.0),
                    witnessed(full, src, start, nb, costs@),
                    entered(full, src, start, nb, costs@),
                    near(full, src, start, nb, costs@),
                    direct_seen(full, start, nb, COST_SPAN as int, costs@),
                    forall|k: int|
                        0 <= k < m && (#[trigger] full[start][k]).dir == IdxLinkDir::Forward
                            && full[start][k].to != src.0 ==> lowered(
                            bucket@,
                            full[start][k].to as u32,
                            full[start][k].cost,
                            costs@,
                        ),
                decreases row.len() - m,
            {
                let link = row[m];
                assert(link@ == full[start][m as int]);
                let ghost before = costs@;
                proof {
                    assert(targets_within(full[start], full.len() as int));
                }
                if link.dir() == IdxLinkDir::Forward && link.enode_idx().0 != src.0 {
                    if set_contains(&backwards, link.enode_idx().0) {
                        proof {
                            let x = link@.to;
                            assert(adj[start] == full[start]);
                            assert(full[start][m as int] == (LinkView {
                                to: x,
                                cost: link@.cost,
                                dir: IdxLinkDir::Forward,
                            }));
                            assert(step(adj, IdxLinkDir::Forward, start, x, link@.cost));
                            assert(has_link(full[start], x, link@.cost, IdxLinkDir::Forward));
                            let one = seq![start];
                            assert(crate::paths::is_way(adj, IdxLinkDir::Forward, one, 0));
                            lemma_way_extend(adj, IdxLinkDir::Forward, one, 0, x, link@.cost);
                            assert(leads(
                                adj,
                                IdxLinkDir::Forward,
                                one.push(x),
                                start,
                                x,
                                link@.cost,
                            ));
                        }
                        lower_costs(
                            &bucket,
                            link.enode_idx(),
                            link.cost(),
                            &mut costs,
                            Ghost(full),
                            Ghost(src),
                            Ghost(start),
                            Ghost(nb),
                        );
                    } else {
                        proof {
                            assert forall|b: int| 0 <= b < bucket@.len() implies (#[trigger] bucket@[b]).0.0
                                != link@.to by {
                                assert(backwards@.contains(bucket@[b].0.0));
                            }
                        }
                    }
                }
                proof {
                    assert forall|k: int|
                        0 <= k < m + 1 && (#[trigger] full[start][k]).dir == IdxLinkDir::Forward
                            && full[start][k].to != src.0 implies lowered(
                        bucket@,
                        full[start][k].to as u32,
                        full[start][k].cost,
                        costs@,
                    ) by {
                        if k < m {
                            assert(lowered(
                                bucket@,
                                full[start][k].to as u32,
                                full[start][k].cost,
                                before,
                            ));
                            assert forall|x: int|
                                0 <= x < bucket@.len() && (#[trigger] bucket@[x]).0.0
                                    == full[start][k].to as u32 implies costs@[bucket@[x].1 as int]
                                <= full[start][k].cost + bucket@[x].2 by {
                                assert(before[bucket@[x].1 as int] <= full[start][k].cost
                                    + bucket@[x].2);
                            }
                        }
                    }
                    assert forall|i: int, c: int|
                        0 <= i < nb.len() && c < COST_SPAN && #[trigger] has_link(
                            full[nb[i].to],
                            start,
                            c,
                            IdxLinkDir::Backward,
                        ) implies costs@[i] <= c by {
                        assert(before[i] <= c);
                    }
                }
                m += 1;
            }
            proof {
                assert forall|i: int, x: int, c1: int, c2: int|
                    0 <= i < nb.len() && x != src.0 && c1 + c2 < 0x8000_0000 && #[trigger] has_link(
                        full[start],
                        x,
                        c1,
                        IdxLinkDir::Forward,
                    ) && #[trigger] has_link(full[nb[i].to], x, c2, IdxLinkDir::Backward) implies costs@[i]
                    <= c1 + c2 by {
                    let k = choose|k: int|
                        0 <= k < full[start].len() && #[trigger] full[start][k] == (LinkView {
                            to: x,
                            cost: c1,
                            dir: IdxLinkDir::Forward,
                        });
                    assert(targets_within(full[start], full.len() as int));
                    assert(0 <= full[start][k].to);
                    lemma_tailed(full, nb, bucket@, i, x, c2);
                    assert(lowered(bucket@, x as u32, c1, costs@));
                }
            }
        } else {
            let mut search = Search::with_capacity(128);
            search.heap_limit = WITNESS_HEAP_LIMIT;
            search.hop_limit = hop_limit - 1;
            search.add_src(start_key);
            let top: u32 = from_link.cost() + max_cost;
            search.cost_limit = if top > backward_min_cost {
                top - backward_min_cost
            } else {
                0
            };
            let ghost first = HeapEntry { key: start_key, hop: 0u16, cost: 0u32 };
            let ghost mut began = false;
            proof {
                lemma_started(adj, IdxLinkDir::Forward, start_key, &search);
                assert(search.queue().contains(first));
            }
            loop
                invariant_except_break
                    sound(adj, IdxLinkDir::Forward, start, &search),
                    !began ==> search.queue().contains(first) && !settled(
                        search.records(),
                        start_key.0,
                    ) && search.added() == 0 && (forall|x: Entry| #[trigger]
                        search.queue().contains(x) ==> x == first) && forall|k: u32| #[trigger]
                        search.records().contains_key(k) ==> k == start_key.0,
                invariant
                    self.wf(),
                    full == self.adj(),
                    adj == without(full, Some(src)),
                    nb == links_view(neighbors@),
                    targets_within(nb, full.len() as int),
                    paired_off(full, src.0 as int),
                    src.0 < full.len(),
                    start == from_link@.to,
                    start_key.0 == start,
                    start != src.0,
                    dst_len == neighbors@.len(),
                    tails_ok(full, nb, bucket@),
                    forall|b: int| 0 <= b < bucket@.len() ==> backwards@.contains((#[trigger] bucket@[b]).0.0),
                    first == (HeapEntry { key: start_key, hop: 0u16, cost: 0u32 }),
                    search.cost_limit == if top > backward_min_cost {
                        (top - backward_min_cost) as u32
                    } else {
                        0u32
                    },
                    witnessed(full, src, start, nb, costs@),
                    entered(full, src, start, nb, costs@),
                    began ==> lowered(bucket@, start_key.0, 0, costs@),
                    costs_sane(full),
                    top == from_link@.cost + dearest(nb),
                    good == (hop_limit >= 2 && full[start].len() <= WITNESS_HEAP_LIMIT),
                    search.heap_limit == WITNESS_HEAP_LIMIT,
                    search.hop_limit == hop_limit - 1,
                    tails_all(full, nb, bucket@, nb.len() as int),
                    forall|b: int| 0 <= b < bucket@.len() ==> backward_min_cost <= (#[trigger] bucket@[b]).2,
                    began && good ==> settled(search.records(), start_key.0) && search.records()[start_key.0].cost
                        == 0 && all_relaxed(
                        adj,
                        IdxLinkDir::Forward,
                        search.records(),
                        start_key.0,
                        full[start].len() as int,
                        search.cost_limit as int,
                    ),
                    applied(bucket@, src, search.records(), costs@),
                ensures
                    began || top <= backward_min_cost,
                    good ==> two_seen(full, src, start, nb, from_link@.cost + dearest(nb), costs@),
                decreases adj.len() - done(search.records()).len(),
            {
                proof {
                    let idx = choose|idx: Map<u32, nat>|
                        tree_ok(adj, IdxLinkDir::Forward, start, search.records(), idx);
                    lemma_done_within(adj, IdxLinkDir::Forward, start, search.records(), idx);
                }
                let ghost recs0 = search.records();
                let ghost queue0 = search.queue();
                let ghost s0 = search;
                match expand(
                    &self.contractions,
                    &mut search,
                    IdxLinkDir::Forward,
                    Some(src),
                    Ghost(start),
                ) {
                    None => {
                        proof {
                            if !began {
                                if search.queue().contains(first) {
                                    assert(search.cost_limit <= first.cost);
                                } else {
                                    assert(search.queue().count(first) < queue0.count(first));
                                }
                            }
                            if good {
                                lemma_two_told(
                                    full,
                                    src,
                                    start,
                                    nb,
                                    from_link@.cost + dearest(nb),
                                    search.cost_limit as int,
                                    backward_min_cost as int,
                                    recs0,
                                    queue0,
                                    search.queue(),
                                    bucket@,
                                    costs@,
                                    began,
                                );
                            }
                        }
                        break ;
                    },
                    Some(entry) => {
                        proof {
                            let idx = choose|idx: Map<u32, nat>|
                                tree_ok(adj, IdxLinkDir::Forward, start, search.records(), idx);
                            lemma_done_within(
                                adj,
                                IdxLinkDir::Forward,
                                start,
                                search.records(),
                                idx,
                            );
                            assert(!done(recs0).contains(entry.key.0));
                            if !began {
                                assert(recs0.contains_key(entry.key.0));
                                assert(entry.key.0 == start_key.0);
                                if good {
                                    assert(entry == first);
                                    assert(adj[start] == full[start]);
                                    assert(ample(&s0, entry, adj[start].len() as int));
                                }
                            } else if good {
                                assert forall|i: int|
                                    0 <= i < full[start].len() && i < adj[start_key.0 as int].len() implies #[trigger] relaxed(
                                    adj,
                                    IdxLinkDir::Forward,
                                    search.records(),
                                    start_key.0,
                                    i,
                                    search.cost_limit as int,
                                ) by {
                                    assert(relaxed(
                                        adj,
                                        IdxLinkDir::Forward,
                                        recs0,
                                        start_key.0,
                                        i,
                                        search.cost_limit as int,
                                    ));
                                    let l = adj[start_key.0 as int][i];
                                    if l.dir == IdxLinkDir::Forward && recs0[start_key.0].cost + l.cost
                                        < search.cost_limit {
                                        assert(recs0.contains_key(l.to as u32));
                                    }
                                }
                            }
                            assert forall|k: u32|
                                #[trigger] settled(search.records(), k) && k != src.0 && k
                                    != entry.key.0 implies lowered(
                                bucket@,
                                k,
                                search.records()[k].cost as int,
                                costs@,
                            ) by {
                                assert(done(search.records()).contains(k));
                                assert(done(recs0).contains(k));
                                assert(settled(recs0, k));
                            }
                        }
                        let key = entry.key;
                        if key.0 == src.0 {
                            proof {
                                began = true;
                            }
                            continue ;
                        }
                        if set_contains(&backwards, key.0) {
                            proof {
                                lemma_settled_way(adj, IdxLinkDir::Forward, start, &search, key);
                                let idx = choose|idx: Map<u32, nat>|
                                    tree_ok(adj, IdxLinkDir::Forward, start, search.records(), idx);
                                assert(crate::shortest::record_ok(
                                    adj,
                                    IdxLinkDir::Forward,
                                    start,
                                    search.records(),
                                    idx,
                                    key.0,
                                ));
                            }
                            let ghost before = costs@;
                            lower_costs(
                                &bucket,
                                key,
                                entry.cost,
                                &mut costs,
                                Ghost(full),
                                Ghost(src),
                                Ghost(start),
                                Ghost(nb),
                            );
                            proof {
                                if began {
                                    assert forall|x: int|
                                        0 <= x < bucket@.len() && (#[trigger] bucket@[x]).0.0
                                            == start_key.0 implies costs@[bucket@[x].1 as int] <= 0
                                        + bucket@[x].2 by {
                                        assert(before[bucket@[x].1 as int] <= 0 + bucket@[x].2);
                                    }
                                }
                                assert forall|k: u32|
                                    #[trigger] settled(search.records(), k) && k != src.0 implies lowered(
                                    bucket@,
                                    k,
                                    search.records()[k].cost as int,
                                    costs@,
                                ) by {
                                    if k != key.0 {
                                        assert(lowered(
                                            bucket@,
                                            k,
                                            search.records()[k].cost as int,
                                            before,
                                        ));
                                        assert forall|x: int|
                                            0 <= x < bucket@.len() && (#[trigger] bucket@[x]).0.0
                                                == k implies costs@[bucket@[x].1 as int]
                                            <= search.records()[k].cost + bucket@[x].2 by {
                                            assert(before[bucket@[x].1 as int]
                                                <= search.records()[k].cost + bucket@[x].2);
                                        }
                                    }
                                }
                            }
                        } else {
                            proof {
                                assert forall|x: int|
                                    0 <= x < bucket@.len() implies (#[trigger] bucket@[x]).0.0
                                    != key.0 by {
                                    assert(backwards@.contains(bucket@[x].0.0));
                                }
                            }
                        }
                        proof {
                            began = true;
                        }
                    },
                }
            }
            proof {
                assert forall|i: int, c: int|
                    0 <= i < nb.len() && c < from_link@.cost + dearest(nb) && #[trigger] has_link(
                        full[nb[i].to],
                        start,
                        c,
                        IdxLinkDir::Backward,
                    ) implies costs@[i] <= c by {
                    lemma_tailed(full, nb, bucket@, i, start, c);
                }
            }
        }
        costs
    }

    /// The arcs into the targets of `neighbors`: for each `Backward` link at
    /// a target, the node it comes from, the place of the target among the
    /// neighbours, and its cost; and the set of the nodes they come from.
    fn tails_of(&self, neighbors: &[IdxLink]) -> (r: (Vec<(IdxNodeKey, usize, u32)>, FnvHashSet<u32>))
        requires
            self.wf(),
            targets_within(links_view(neighbors@), self.adj().len() as int),
        ensures
            tails_ok(self.adj(), links_view(neighbors@), r.0@),
            tails_all(self.adj(), links_view(neighbors@), r.0@, neighbors@.len() as int),
            forall|b: int| 0 <= b < r.0@.len() ==> r.1@.contains((#[trigger] r.0@[b]).0.0),
            forall|k: u32|
                r.1@.contains(k) ==> exists|b: int| 0 <= b < r.0@.len() && (#[trigger] r.0@[b]).0.0 == k,
    {
        let ghost full = self.adj();
        let ghost nb = links_view(neighbors@);
        let dst_len = neighbors.len();
        let mut bucket: Vec<(IdxNodeKey, usize, u32)> = Vec::new();
        let mut backwards: FnvHashSet<u32> = set_new();
        let mut i: usize = 0;
        while i < dst_len
            invariant
                self.wf(),
                full == self.adj(),
                nb == links_view(neighbors@),
                targets_within(nb, full.len() as int),
                dst_len == neighbors@.len(),
                i <= dst_len,
                tails_ok(full, nb, bucket@),
                tails_all(full, nb, bucket@, i as int),
                forall|b: int| 0 <= b < bucket@.len() ==> backwards@.contains((#[trigger] bucket@[b]).0.0),
                forall|k: u32|
                    backwards@.contains(k) ==> exists|b: int|
                        0 <= b < bucket@.len() && (#[trigger] bucket@[b]).0.0 == k,
            decreases dst_len - i,
        {
            let neighbor = neighbors[i];
            assert(neighbor@ == nb[i as int]);
            let t = neighbor.enode_idx().index();
            let row = &self.contractions[t];
            let mut j: usize = 0;
            while j < row.len()
                invariant
                    self.wf(),
                    full == self.adj(),
                    nb == links_view(neighbors@),
                    dst_len == neighbors@.len(),
                    i < dst_len,
                    t == nb[i as int].to,
                    t < full.len(),
                    links_view(row@) == full[t as int],
                    j <= row.len(),
                    tails_ok(full, nb, bucket@),
                    tails_all(full, nb, bucket@, i as int),
                    forall|k: int|
                        0 <= k < j && (#[trigger] full[t as int][k]).dir == IdxLinkDir::Backward
                            ==> tailed(bucket@, i as int, full[t as int][k]),
                    forall|b: int|
                        0 <= b < bucket@.len() ==> backwards@.contains((#[trigger] bucket@[b]).0.0),
                    forall|k: u32|
                        backwards@.contains(k) ==> exists|b: int|
                            0 <= b < bucket@.len() && (#[trigger] bucket@[b]).0.0 == k,
                decreases row.len() - j,
            {
                let next_neighbor = row[j];
                assert(next_neighbor@ == full[t as int][j as int]);
                if next_neighbor.dir() != IdxLinkDir::Forward {
                    let ghost before = bucket@;
                    let ghost members = backwards@;
                    bucket.push((next_neighbor.enode_idx(), i, next_neighbor.cost()));
                    set_insert(&mut backwards, next_neighbor.enode_idx().0);
                    proof {
                        lemma_tail_added(full, nb, before, bucket@, i as int, j as int);
                        assert forall|b: int| 0 <= b < bucket@.len() implies backwards@.contains(
                            (#[trigger] bucket@[b]).0.0,
                        ) by {
                            if b < before.len() {
                                assert(bucket@[b] == before[b]);
                                assert(members.contains(before[b].0.0));
                            }
                        }
                        assert forall|k: u32| backwards@.contains(k) implies exists|b: int|
                            0 <= b < bucket@.len() && (#[trigger] bucket@[b]).0.0 == k by {
                            if members.contains(k) {
                                let b = choose|b: int|
                                    0 <= b < before.len() && (#[trigger] before[b]).0.0 == k;
                                assert(bucket@[b] == before[b]);
                            } else {
                                assert(bucket@[before.len() as int].0.0 == k);
                            }
                        }
                    }
                }
                j += 1;
            }
            proof {
                assert forall|a: int, k: int|
                    0 <= a < i + 1 && 0 <= k < full[nb[a].to].len() && (#[trigger] full[nb[a].to][k]).dir
                        == IdxLinkDir::Backward implies tailed(bucket@, a, full[nb[a].to][k]) by {
                    if a == i {
                        assert(full[nb[a].to][k] == full[t as int][k]);
                    }
                }
            }
            i += 1;
        }
        (bucket, backwards)
    }
}

/// Each arc from `start` straight to the target of a neighbour other than
/// `avoid` that costs less than `top` was found: the cost found for the
/// target is no more.
pub open spec fn straight_seen(
    adj: Seq<Seq<LinkView>>,
    avoid: IdxNodeKey,
    start: int,
    targets: Seq<LinkView>,
    top: int,
    costs: Seq<u32>,
) -> bool {
    forall|i: int, c: int|
        0 <= i < targets.len() && targets[i].to != avoid.0 && c < top && #[trigger] has_link(
            adj[start],
            targets[i].to,
            c,
            IdxLinkDir::Forward,
        ) ==> costs[i] <= c
}

/// Each target with an arc from `start` straight to it that costs less than
/// `top` is recorded at no more than that.
pub open spec fn straight_reached(
    adj: Seq<Seq<LinkView>>,
    avoid: IdxNodeKey,
    start: int,
    targets: Seq<LinkView>,
    top: int,
    recs: Map<u32, Record>,
) -> bool {
    forall|i: int, c: int|
        0 <= i < targets.len() && c < top && #[trigger] has_link(
            adj[start],
            targets[i].to,
            c,
            IdxLinkDir::Forward,
        ) ==> recs.contains_key(targets[i].to as u32) && recs[targets[i].to as u32].cost <= c
}

/// Of each settled target other than `avoid` the cost is told.
pub open spec fn told(
    targets: Seq<LinkView>,
    avoid: IdxNodeKey,
    recs: Map<u32, Record>,
    costs: Seq<u32>,
) -> bool {
    forall|j: int|
        0 <= j < targets.len() && settled(recs, (#[trigger] targets[j]).to as u32) && targets[j].to
            != avoid.0 ==> costs[j] <= recs[targets[j].to as u32].cost
}

/// Once the links of `start` have been followed, each target that an arc
/// leads straight to is recorded at no more than the cost of the arc.
pub proof fn lemma_straight_reached(
    adj: Seq<Seq<LinkView>>,
    avoid: IdxNodeKey,
    start: int,
    targets: Seq<LinkView>,
    top: int,
    recs: Map<u32, Record>,
)
    requires
        0 <= start < adj.len(),
        start != avoid.0,
        settled(recs, start as u32),
        recs[start as u32].cost == 0,
        start < 0x1_0000_0000,
        all_relaxed(
            without(adj, Some(avoid)),
            IdxLinkDir::Forward,
            recs,
            start as u32,
            adj[start].len() as int,
            top,
        ),
    ensures
        straight_reached(adj, avoid, start, targets, top, recs),
{
    let out = without(adj, Some(avoid));
    assert(out[start] == adj[start]);
    assert forall|i: int, c: int|
        0 <= i < targets.len() && c < top && #[trigger] has_link(
            adj[start],
            targets[i].to,
            c,
            IdxLinkDir::Forward,
        ) implies recs.contains_key(targets[i].to as u32) && recs[targets[i].to as u32].cost
        <= c by {
        let m = choose|m: int|
            0 <= m < adj[start].len() && #[trigger] adj[start][m] == (LinkView {
                to: targets[i].to,
                cost: c,
                dir: IdxLinkDir::Forward,
            });
        assert(relaxed(out, IdxLinkDir::Forward, recs, start as u32, m, top));
    }
}

/// When the search has run dry, every target that an arc leads straight to
/// below the cost limit is settled, and its cost is told.
pub proof fn lemma_straight_told(
    adj: Seq<Seq<LinkView>>,
    avoid: IdxNodeKey,
    start: int,
    targets: Seq<LinkView>,
    top: int,
    recs: Map<u32, Record>,
    before: Multiset<Entry>,
    after: Multiset<Entry>,
    costs: Seq<u32>,
    began: bool,
)
    requires
        costs_sane(adj),
        0 <= start < adj.len(),
        queue_ok(recs, before),
        forall|x: Entry| #[trigger] after.contains(x) ==> top <= x.cost,
        forall|x: Entry|
            #[trigger] after.count(x) < before.count(x) ==> settled(recs, x.key.0) || top <= x.cost,
        began ==> straight_reached(adj, avoid, start, targets, top, recs),
        !began ==> top <= 0,
        told(targets, avoid, recs, costs),
    ensures
        straight_seen(adj, avoid, start, targets, top, costs),
{
    assert forall|i: int, c: int|
        0 <= i < targets.len() && targets[i].to != avoid.0 && c < top && #[trigger] has_link(
            adj[start],
            targets[i].to,
            c,
            IdxLinkDir::Forward,
        ) implies costs[i] <= c by {
        let m = choose|m: int|
            0 <= m < adj[start].len() && #[trigger] adj[start][m] == (LinkView {
                to: targets[i].to,
                cost: c,
                dir: IdxLinkDir::Forward,
            });
        assert(0 <= adj[start][m].cost);
        let t = targets[i].to as u32;
        if !settled(recs, t) {
            assert(crate::shortest::waits(before, recs[t].cost, t));
            let h = choose|h: u16|
                before.contains(#[trigger] crate::shortest::entry_of(recs[t].cost, h, t));
            let x = crate::shortest::entry_of(recs[t].cost, h, t);
            if !after.contains(x) {
                assert(after.count(x) < before.count(x));
            }
        }
    }
}

/// When every target has been found, the cost of each target that an arc
/// leads straight to is told.
pub proof fn lemma_all_told(
    adj: Seq<Seq<LinkView>>,
    avoid: IdxNodeKey,
    start: int,
    targets: Seq<LinkView>,
    top: int,
    recs: Map<u32, Record>,
    costs: Seq<u32>,
    hit: Set<int>,
)
    requires
        straight_reached(adj, avoid, start, targets, top, recs),
        told(targets, avoid, recs, costs),
        hit.finite(),
        hit.len() == targets.len(),
        forall|j: int|
            #[trigger] hit.contains(j) ==> 0 <= j < targets.len() && settled(
                recs,
                targets[j].to as u32,
            ),
    ensures
        straight_seen(adj, avoid, start, targets, top, costs),
{
    let all = vstd::set_lib::set_int_range(0, targets.len() as int);
    vstd::set_lib::lemma_int_range(0, targets.len() as int);
    assert(hit.subset_of(all));
    vstd::set_lib::lemma_subset_equality(hit, all);
    assert forall|i: int, c: int|
        0 <= i < targets.len() && targets[i].to != avoid.0 && c < top && #[trigger] has_link(
            adj[start],
            targets[i].to,
            c,
            IdxLinkDir::Forward,
        ) implies costs[i] <= c by {
        assert(all.contains(i));
        assert(hit.contains(i));
    }
}

/// Each way round of two links that costs less than `top` was seen: where
/// an arc leads from `start` to a node other than `avoid` and an arc from
/// there into the target of a neighbour, the cost found for the target is no
/// more than both cost.
pub open spec fn two_seen(
    adj: Seq<Seq<LinkView>>,
    avoid: IdxNodeKey,
    start: int,
    targets: Seq<LinkView>,
    top: int,
    costs: Seq<u32>,
) -> bool {
    forall|i: int, x: int, c1: int, c2: int|
        0 <= i < targets.len() && x != avoid.0 && c1 + c2 < top && #[trigger] has_link(
            adj[start],
            x,
            c1,
            IdxLinkDir::Forward,
        ) && #[trigger] has_link(adj[targets[i].to], x, c2, IdxLinkDir::Backward) ==> costs[i] <= c1
            + c2
}

/// For each settled node other than `avoid`, the cost of each target that
/// it has an arc into is no more than its own cost and the cost of the arc.
pub open spec fn applied(
    bucket: Seq<(IdxNodeKey, usize, u32)>,
    avoid: IdxNodeKey,
    recs: Map<u32, Record>,
    costs: Seq<u32>,
) -> bool {
    forall|k: u32| #[trigger] settled(recs, k) && k != avoid.0 ==> lowered(bucket, k, recs[k].cost as int, costs)
}

/// When the search has run dry, every way round of two links below the
/// cost limit has been seen.
pub proof fn lemma_two_told(
    adj: Seq<Seq<LinkView>>,
    avoid: IdxNodeKey,
    start: int,
    targets: Seq<LinkView>,
    top: int,
    limit: int,
    least: int,
    recs: Map<u32, Record>,
    before: Multiset<Entry>,
    after: Multiset<Entry>,
    bucket: Seq<(IdxNodeKey, usize, u32)>,
    costs: Seq<u32>,
    began: bool,
)
    requires
        costs_sane(adj),
        0 <= start < adj.len(),
        start != avoid.0,
        start < 0x1_0000_0000,
        avoid.0 < adj.len(),
        queue_ok(recs, before),
        forall|x: Entry| #[trigger] after.contains(x) ==> limit <= x.cost,
        forall|x: Entry|
            #[trigger] after.count(x) < before.count(x) ==> settled(recs, x.key.0) || limit <= x.cost,
        limit == if top > least {
            top - least
        } else {
            0
        },
        forall|b: int| 0 <= b < bucket.len() ==> least <= (#[trigger] bucket[b]).2,
        tails_all(adj, targets, bucket, targets.len() as int),
        began ==> settled(recs, start as u32) && recs[start as u32].cost == 0 && all_relaxed(
            without(adj, Some(avoid)),
            IdxLinkDir::Forward,
            recs,
            start as u32,
            adj[start].len() as int,
            limit,
        ),
        !began ==> limit <= 0,
        applied(bucket, avoid, recs, costs),
    ensures
        two_seen(adj, avoid, start, targets, top, costs),
{
    let out = without(adj, Some(avoid));
    assert(out[start] == adj[start]);
    assert forall|i: int, x: int, c1: int, c2: int|
        0 <= i < targets.len() && x != avoid.0 && c1 + c2 < top && #[trigger] has_link(
            adj[start],
            x,
            c1,
            IdxLinkDir::Forward,
        ) && #[trigger] has_link(adj[targets[i].to], x, c2, IdxLinkDir::Backward) implies costs[i]
        <= c1 + c2 by {
        lemma_tailed(adj, targets, bucket, i, x, c2);
        let b = choose|b: int|
            0 <= b < bucket.len() && (#[trigger] bucket[b]).0.0 == x && bucket[b].1 == i
                && bucket[b].2 == c2;
        let m = choose|m: int|
            0 <= m < adj[start].len() && #[trigger] adj[start][m] == (LinkView {
                to: x,
                cost: c1,
                dir: IdxLinkDir::Forward,
            });
        assert(0 <= adj[start][m].cost);
        assert(least <= c2);
        assert(c1 < limit);
        assert(began);
        assert(relaxed(out, IdxLinkDir::Forward, recs, start as u32, m, limit));
        let k = x as u32;
        assert(recs.contains_key(k) && recs[k].cost <= c1);
        if !settled(recs, k) {
            assert(crate::shortest::waits(before, recs[k].cost, k));
            let h = choose|h: u16|
                before.contains(#[trigger] crate::shortest::entry_of(recs[k].cost, h, k));
            let e = crate::shortest::entry_of(recs[k].cost, h, k);
            if !after.contains(e) {
                assert(after.count(e) < before.count(e));
            }
        }
        assert(lowered(bucket, k, recs[k].cost as int, costs));
        assert(bucket[b].0.0 == k);
    }
}

/// Each cost below `u32::MAX` is made of the cost of a way from `start`
/// that does not leave `avoid` and the cost of an arc from where that way
/// ends, a node other than `avoid`, into the target.
pub open spec fn entered(
    adj: Seq<Seq<LinkView>>,
    avoid: IdxNodeKey,
    start: int,
    targets: Seq<LinkView>,
    costs: Seq<u32>,
) -> bool {
    forall|i: int|
        0 <= i < costs.len() && (#[trigger] costs[i]) < u32::MAX ==> exists|x: int, c2: int|
            x != avoid.0 && 0 <= c2 <= costs[i] && #[trigger] has_link(
                adj[targets[i].to],
                x,
                c2,
                IdxLinkDir::Backward,
            ) && reaches(without(adj, Some(avoid)), start, x, costs[i] - c2)
}

/// The list holds an arc into target `i` for the link: from the node the
/// link leads to, at its cost.
pub open spec fn tailed(bucket: Seq<(IdxNodeKey, usize, u32)>, i: int, link: LinkView) -> bool {
    exists|b: int|
        0 <= b < bucket.len() && (#[trigger] bucket[b]).0.0 == link.to && bucket[b].1 == i
            && bucket[b].2 == link.cost
}

/// Each arc of the list is a `Backward` link at the target it names.
pub open spec fn tails_ok(
    full: Seq<Seq<LinkView>>,
    nb: Seq<LinkView>,
    bucket: Seq<(IdxNodeKey, usize, u32)>,
) -> bool {
    forall|b: int|
        0 <= b < bucket.len() ==> (#[trigger] bucket[b]).1 < nb.len() && has_link(
            full[nb[bucket[b].1 as int].to],
            bucket[b].0.0 as int,
            bucket[b].2 as int,
            IdxLinkDir::Backward,
        ) && bucket[b].2 < COST_SPAN
}

/// The list holds every `Backward` link at each of the first `upto`
/// targets.
pub open spec fn tails_all(
    full: Seq<Seq<LinkView>>,
    nb: Seq<LinkView>,
    bucket: Seq<(IdxNodeKey, usize, u32)>,
    upto: int,
) -> bool {
    forall|a: int, k: int|
        0 <= a < upto && 0 <= k < full[nb[a].to].len() && (#[trigger] full[nb[a].to][k]).dir
            == IdxLinkDir::Backward ==> tailed(bucket, a, full[nb[a].to][k])
}

/// The cost of each target with an arc from `key` is no more than `reached`
/// and the cost of the arc.
pub open spec fn lowered(
    bucket: Seq<(IdxNodeKey, usize, u32)>,
    key: u32,
    reached: int,
    costs: Seq<u32>,
) -> bool {
    forall|x: int|
        0 <= x < bucket.len() && (#[trigger] bucket[x]).0.0 == key ==> costs[bucket[x].1 as int]
            <= reached + bucket[x].2
}

/// There is a way from `s` to `e` at cost `c` that has one link, or two
/// with a node other than `avoid` between them.
pub open spec fn short_way(adj: Seq<Seq<LinkView>>, avoid: IdxNodeKey, s: int, e: int, c: int) -> bool {
    ||| has_link(adj[e], s, c, IdxLinkDir::Backward)
    ||| exists|x: int, c1: int|
        x != avoid.0 && #[trigger] has_link(adj[s], x, c1, IdxLinkDir::Forward) && has_link(
            adj[e],
            x,
            c - c1,
            IdxLinkDir::Backward,
        )
}

/// Each cost below `u32::MAX` is that of a way from `start` to the target
/// of one or two links, round `avoid`.
pub open spec fn near(
    adj: Seq<Seq<LinkView>>,
    avoid: IdxNodeKey,
    start: int,
    targets: Seq<LinkView>,
    costs: Seq<u32>,
) -> bool {
    forall|i: int|
        0 <= i < costs.len() && (#[trigger] costs[i]) < u32::MAX ==> short_way(
            adj,
            avoid,
            start,
            targets[i].to,
            costs[i] as int,
        )
}

/// Each arc from `start` straight into the target of a neighbour that costs
/// less than `top` was seen: the cost found for the target is no more.
pub open spec fn direct_seen(
    adj: Seq<Seq<LinkView>>,
    start: int,
    targets: Seq<LinkView>,
    top: int,
    costs: Seq<u32>,
) -> bool {
    forall|i: int, c: int|
        0 <= i < targets.len() && c < top && #[trigger] has_link(
            adj[targets[i].to],
            start,
            c,
            IdxLinkDir::Backward,
        ) ==> costs[i] <= c
}

/// A list that holds every arc into the targets holds each arc from
/// `start` into target `i`.
pub proof fn lemma_tailed(
    full: Seq<Seq<LinkView>>,
    nb: Seq<LinkView>,
    bucket: Seq<(IdxNodeKey, usize, u32)>,
    i: int,
    start: int,
    c: int,
)
    requires
        tails_all(full, nb, bucket, nb.len() as int),
        0 <= i < nb.len(),
        has_link(full[nb[i].to], start, c, IdxLinkDir::Backward),
    ensures
        exists|b: int|
            0 <= b < bucket.len() && (#[trigger] bucket[b]).0.0 == start && bucket[b].1 == i
                && bucket[b].2 == c,
{
    let row = full[nb[i].to];
    let k = choose|k: int|
        0 <= k < row.len() && #[trigger] row[k] == (LinkView {
            to: start,
            cost: c,
            dir: IdxLinkDir::Backward,
        });
    assert(full[nb[i].to][k].dir == IdxLinkDir::Backward);
    assert(tailed(bucket, i, full[nb[i].to][k]));
}

/// An arc added for link `j` of target `i` keeps the list in order and
/// complete for the targets done, and covers the link.
pub proof fn lemma_tail_added(
    full: Seq<Seq<LinkView>>,
    nb: Seq<LinkView>,
    before: Seq<(IdxNodeKey, usize, u32)>,
    after: Seq<(IdxNodeKey, usize, u32)>,
    i: int,
    j: int,
)
    requires
        tails_ok(full, nb, before),
        tails_all(full, nb, before, i),
        0 <= i < nb.len(),
        0 <= j < full[nb[i].to].len(),
        full[nb[i].to][j].dir == IdxLinkDir::Backward,
        0 <= full[nb[i].to][j].cost < COST_SPAN,
        0 <= full[nb[i].to][j].to < 0x1_0000_0000,
        after.len() == before.len() + 1,
        forall|b: int| 0 <= b < before.len() ==> after[b] == before[b],
        after[before.len() as int].0.0 == full[nb[i].to][j].to,
        after[before.len() as int].1 == i,
        after[before.len() as int].2 == full[nb[i].to][j].cost,
        forall|k: int|
            0 <= k < j && (#[trigger] full[nb[i].to][k]).dir == IdxLinkDir::Backward ==> tailed(
                before,
                i,
                full[nb[i].to][k],
            ),
    ensures
        tails_ok(full, nb, after),
        tails_all(full, nb, after, i),
        forall|k: int|
            0 <= k < j + 1 && (#[trigger] full[nb[i].to][k]).dir == IdxLinkDir::Backward ==> tailed(
                after,
                i,
                full[nb[i].to][k],
            ),
{
    let t = nb[i].to;
    let last = before.len() as int;
    assert forall|b: int| 0 <= b < after.len() implies (#[trigger] after[b]).1 < nb.len() && has_link(
        full[nb[after[b].1 as int].to],
        after[b].0.0 as int,
        after[b].2 as int,
        IdxLinkDir::Backward,
    ) && after[b].2 < COST_SPAN by {
        if b < last {
            assert(after[b] == before[b]);
        } else {
            assert(full[t][j] == (LinkView {
                to: after[b].0.0 as int,
                cost: after[b].2 as int,
                dir: IdxLinkDir::Backward,
            }));
        }
    }
    assert forall|a: int, k: int|
        0 <= a < i && 0 <= k < full[nb[a].to].len() && (#[trigger] full[nb[a].to][k]).dir
            == IdxLinkDir::Backward implies tailed(after, a, full[nb[a].to][k]) by {
        assert(tailed(before, a, full[nb[a].to][k]));
        let b = choose|b: int|
            0 <= b < before.len() && (#[trigger] before[b]).0.0 == full[nb[a].to][k].to && before[b].1
                == a && before[b].2 == full[nb[a].to][k].cost;
        assert(after[b] == before[b]);
    }
    assert forall|k: int|
        0 <= k < j + 1 && (#[trigger] full[t][k]).dir == IdxLinkDir::Backward implies tailed(
        after,
        i,
        full[t][k],
    ) by {
        if k < j {
            assert(tailed(before, i, full[t][k]));
            let b = choose|b: int|
                0 <= b < before.len() && (#[trigger] before[b]).0.0 == full[t][k].to && before[b].1
                    == i && before[b].2 == full[t][k].cost;
            assert(after[b] == before[b]);
        } else {
            assert(after[last].0.0 == full[t][k].to);
        }
    }
}

/// The least cost among the arcs of the list.
fn least_tail(bucket: &Vec<(IdxNodeKey, usize, u32)>) -> (least: u32)
    requires
        bucket@.len() > 0,
        forall|b: int| 0 <= b < bucket@.len() ==> (#[trigger] bucket@[b]).2 < COST_SPAN,
    ensures
        least < COST_SPAN,
        forall|b: int| 0 <= b < bucket@.len() ==> least <= (#[trigger] bucket@[b]).2,
        exists|b: int| 0 <= b < bucket@.len() && (#[trigger] bucket@[b]).2 == least,
{
    let mut least: u32 = bucket[0].2;
    let ghost mut at: int = 0;
    let mut m: usize = 1;
    while m < bucket.len()
        invariant
            1 <= m <= bucket.len(),
            least < COST_SPAN,
            forall|b: int| 0 <= b < m ==> least <= (#[trigger] bucket@[b]).2,
            0 <= at < m,
            bucket@[at].2 == least,
        decreases bucket.len() - m,
    {
        if bucket[m].2 < least {
            least = bucket[m].2;
            proof {
                at = m as int;
            }
        }
        m += 1;
    }
    least
}

/// Lowers the cost of each target that has an arc from `key` into it to the
/// cost `reached` of a way to `key` and that of the arc, where that is less.
fn lower_costs(
    bucket: &Vec<(IdxNodeKey, usize, u32)>,
    key: IdxNodeKey,
    reached: u32,
    costs: &mut Vec<u32>,
    Ghost(full): Ghost<Seq<Seq<LinkView>>>,
    Ghost(src): Ghost<IdxNodeKey>,
    Ghost(start): Ghost<int>,
    Ghost(nb): Ghost<Seq<LinkView>>,
)
    requires
        tails_ok(full, nb, bucket@),
        targets_within(nb, full.len() as int),
        paired_off(full, src.0 as int),
        src.0 < full.len(),
        key.0 != src.0,
        key.0 < full.len(),
        reaches(without(full, Some(src)), start, key.0 as int, reached as int),
        witnessed(full, src, start, nb, old(costs)@),
        entered(full, src, start, nb, old(costs)@),
    ensures
        witnessed(full, src, start, nb, final(costs)@),
        entered(full, src, start, nb, final(costs)@),
        forall|j: int| 0 <= j < nb.len() ==> (#[trigger] final(costs)@[j]) <= old(costs)@[j],
        lowered(bucket@, key.0, reached as int, final(costs)@),
        (key.0 == start && reached == 0 || has_link(
            full[start],
            key.0 as int,
            reached as int,
            IdxLinkDir::Forward,
        )) && near(full, src, start, nb, old(costs)@) ==> near(full, src, start, nb, final(costs)@),
{
    let ghost adj = without(full, Some(src));
    let ghost close = (key.0 == start && reached == 0 || has_link(
        full[start],
        key.0 as int,
        reached as int,
        IdxLinkDir::Forward,
    )) && near(full, src, start, nb, costs@);
    let ghost way = choose|nodes: Seq<int>|
        leads(adj, IdxLinkDir::Forward, nodes, start, key.0 as int, reached as int);
    let ghost given = costs@;
    let mut b: usize = 0;
    while b < bucket.len()
        invariant
            adj == without(full, Some(src)),
            tails_ok(full, nb, bucket@),
            targets_within(nb, full.len() as int),
            paired_off(full, src.0 as int),
            src.0 < full.len(),
            key.0 != src.0,
            key.0 < full.len(),
            b <= bucket.len(),
            leads(adj, IdxLinkDir::Forward, way, start, key.0 as int, reached as int),
            witnessed(full, src, start, nb, costs@),
            entered(full, src, start, nb, costs@),
            close ==> near(full, src, start, nb, costs@),
            close ==> key.0 == start && reached == 0 || has_link(
                full[start],
                key.0 as int,
                reached as int,
                IdxLinkDir::Forward,
            ),
            forall|j: int| 0 <= j < nb.len() ==> (#[trigger] costs@[j]) <= given[j],
            forall|x: int|
                0 <= x < b && (#[trigger] bucket@[x]).0.0 == key.0 ==> costs@[bucket@[x].1 as int]
                    <= reached + bucket@[x].2,
        decreases bucket.len() - b,
    {
        let (n2, idx, cost) = bucket[b];
        assert(bucket@[b as int] == (n2, idx, cost));
        let ghost before = costs@;
        if key.0 == n2.0 {
            let total: u64 = reached as u64 + cost as u64;
            if total < costs[idx] as u64 {
                proof {
                    let t = nb[idx as int].to;
                    if t != src.0 {
                        lemma_tail_step(full, src, key.0 as int, t, cost as int);
                        lemma_way_extend(
                            adj,
                            IdxLinkDir::Forward,
                            way,
                            reached as int,
                            t,
                            cost as int,
                        );
                        assert(leads(
                            adj,
                            IdxLinkDir::Forward,
                            way.push(t),
                            start,
                            t,
                            total as int,
                        ));
                    }
                }
                costs.set(idx, total as u32);
                proof {
                    if close {
                        assert forall|i: int| 0 <= i < costs@.len() && (#[trigger] costs@[i])
                            < u32::MAX implies short_way(
                            full,
                            src,
                            start,
                            nb[i].to,
                            costs@[i] as int,
                        ) by {
                            if i == idx {
                                assert(has_link(
                                    full[nb[i].to],
                                    key.0 as int,
                                    cost as int,
                                    IdxLinkDir::Backward,
                                ));
                                if !(key.0 == start && reached == 0) {
                                    assert(has_link(
                                        full[start],
                                        key.0 as int,
                                        reached as int,
                                        IdxLinkDir::Forward,
                                    ) && has_link(
                                        full[nb[i].to],
                                        key.0 as int,
                                        costs@[i] - reached,
                                        IdxLinkDir::Backward,
                                    ));
                                }
                            } else {
                                assert(costs@[i] == before[i]);
                                assert(short_way(full, src, start, nb[i].to, before[i] as int));
                            }
                        }
                    }
                    assert forall|i: int| 0 <= i < costs@.len() && (#[trigger] costs@[i])
                        < u32::MAX implies exists|x: int, c2: int|
                        x != src.0 && 0 <= c2 <= costs@[i] && #[trigger] has_link(
                            full[nb[i].to],
                            x,
                            c2,
                            IdxLinkDir::Backward,
                        ) && reaches(adj, start, x, costs@[i] - c2) by {
                        if i == idx {
                            assert(has_link(
                                full[nb[i].to],
                                key.0 as int,
                                cost as int,
                                IdxLinkDir::Backward,
                            ) && reaches(adj, start, key.0 as int, costs@[i] - cost));
                        } else {
                            assert(costs@[i] == before[i]);
                            let (x, c2) = choose|x: int, c2: int|
                                x != src.0 && 0 <= c2 <= before[i] && #[trigger] has_link(
                                    full[nb[i].to],
                                    x,
                                    c2,
                                    IdxLinkDir::Backward,
                                ) && reaches(adj, start, x, before[i] - c2);
                            assert(has_link(full[nb[i].to], x, c2, IdxLinkDir::Backward) && reaches(
                                adj,
                                start,
                                x,
                                costs@[i] - c2,
                            ));
                        }
                    }
                }
            }
        }
        proof {
            assert forall|x: int|
                0 <= x < b + 1 && (#[trigger] bucket@[x]).0.0 == key.0 implies costs@[bucket@[x].1 as int]
                <= reached + bucket@[x].2 by {
                if x < b {
                    assert(before[bucket@[x].1 as int] <= reached + bucket@[x].2);
                }
            }
        }
        b += 1;
    }
}

} // verus!
