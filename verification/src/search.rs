//! Searches over an adjacency array: one step of a search, and the plain
//! search from one node to another.

use crate::adjacency::{adj_of, in_range, targets_within};
use crate::dijkstra::{reversed, settled, walk_back, Cost, Entry, HeapEntry, Record, Search};
use crate::graph::Graph;
use crate::network::{IdxLink, IdxLinkDir, IdxNodeKey, LinkView, KEY_SPACE};
use crate::paths::{
    cheapest, costs_sane, is_way, leads, lemma_adj_of_costs, lemma_step_bounds, nodes_of, step,
};
use crate::shortest::{
    all_relaxed, ample, calm, done, entry_of, exact, exact_ok, footed, lemma_done_bounded,
    lemma_done_grows, lemma_exact_lower, lemma_footed_next, lemma_footed_stays, lemma_frontier,
    lemma_popped, lemma_relax, lemma_relax_ample, lemma_relax_exact, lemma_settle_exact,
    lemma_settle_queue, lemma_settle_tree, lemma_trail, lemma_trail_simple, low_ways, queue_ok,
    record_ok, rooted, settle, settled_before, shallow, small, sound, traced, tree_ok, unlimited,
    waits,
};
use vstd::multiset::*;
use vstd::prelude::*;

verus! {

/// The keys below `n`.
pub open spec fn keys_below(n: nat) -> Set<u32> {
    Set::new(|k: u32| (k as nat) < n)
}

/// There are `n` keys below `n`.
pub proof fn lemma_keys_below(n: nat)
    requires
        n <= KEY_SPACE,
    ensures
        keys_below(n).finite(),
        keys_below(n).len() == n,
    decreases n,
{
    if n == 0 {
        assert(keys_below(0) =~= Set::<u32>::empty());
    } else {
        lemma_keys_below((n - 1) as nat);
        assert(keys_below(n) =~= keys_below((n - 1) as nat).insert((n - 1) as u32));
    }
}

/// A sound search has settled fewer nodes than the array has, or all.
pub proof fn lemma_done_within(
    adj: Seq<Seq<LinkView>>,
    dir: IdxLinkDir,
    src: int,
    recs: Map<u32, Record>,
    idx: Map<u32, nat>,
)
    requires
        adj.len() <= KEY_SPACE,
        tree_ok(adj, dir, src, recs, idx),
    ensures
        done(recs).finite(),
        done(recs).len() <= adj.len(),
{
    lemma_keys_below(adj.len());
    assert forall|k: u32| done(recs).contains(k) implies keys_below(adj.len()).contains(k) by {
        assert(record_ok(adj, dir, src, recs, idx, k));
    }
    vstd::set_lib::lemma_len_subset(done(recs), keys_below(adj.len()));
}

/// A search that has just been given its source is sound, and exact where
/// it has no limits.
pub proof fn lemma_started(adj: Seq<Seq<LinkView>>, dir: IdxLinkDir, src: IdxNodeKey, s: &Search)
    requires
        s.wf(),
        0 <= src.0 < adj.len() <= KEY_SPACE,
        in_range(adj),
        costs_sane(adj),
        s.records() == Map::<u32, Record>::empty().insert(
            src.0,
            Cost { prev_key: src, cost: 0, visited: false },
        ),
        s.queue() == Multiset::<Entry>::empty().insert(HeapEntry { key: src, hop: 0, cost: 0 }),
    ensures
        sound(adj, dir, src.0 as int, s),
        unlimited(s) ==> exact(adj, dir, src.0 as int, s),
        done(s.records()) == Set::<u32>::empty(),
{
    let recs = s.records();
    let idx = Map::<u32, nat>::empty();
    assert forall|k: u32| recs.contains_key(k) implies #[trigger] record_ok(
        adj,
        dir,
        src.0 as int,
        recs,
        idx,
        k,
    ) by {
        assert(k == src.0);
    }
    assert(tree_ok(adj, dir, src.0 as int, recs, idx));
    assert forall|k: u32| recs.contains_key(k) && !recs[k].visited implies #[trigger] waits(
        s.queue(),
        recs[k].cost,
        k,
    ) by {
        assert(k == src.0);
        assert(s.queue().contains(entry_of(0, 0, src.0)));
    }
    assert forall|x: Entry| #[trigger] s.queue().contains(x) implies recs.contains_key(x.key.0)
        && recs[x.key.0].cost <= x.cost && x.cost < u32::MAX && x.hop == 0 && footed(
        adj,
        dir,
        src.0 as int,
        recs,
        x,
    ) by {
        assert(x == (HeapEntry { key: src, hop: 0, cost: 0 }));
        let one = seq![src.0 as int];
        assert(leads(adj, dir, one, src.0 as int, src.0 as int, 0) && one.len() == x.hop + 1
            && one.no_duplicates() && settled_before(recs, one));
    }
    assert(done(recs) =~= Set::<u32>::empty());
}

/// The array without the links of node `avoid`, where one is given.
pub open spec fn without(adj: Seq<Seq<LinkView>>, avoid: Option<IdxNodeKey>) -> Seq<Seq<LinkView>> {
    match avoid {
        Some(a) => if a.0 < adj.len() {
            adj.update(a.0 as int, Seq::<LinkView>::empty())
        } else {
            adj
        },
        None => adj,
    }
}

/// Taking the links of one node away keeps an array in range and its costs
/// sane.
pub proof fn lemma_without(adj: Seq<Seq<LinkView>>, avoid: Option<IdxNodeKey>)
    requires
        in_range(adj),
        costs_sane(adj),
    ensures
        in_range(without(adj, avoid)),
        costs_sane(without(adj, avoid)),
        without(adj, avoid).len() == adj.len(),
{
    let less = without(adj, avoid);
    assert forall|u: int| 0 <= u < less.len() implies targets_within(
        #[trigger] less[u],
        less.len() as int,
    ) by {
        assert(targets_within(adj[u], adj.len() as int));
    }
    assert forall|u: int, i: int| 0 <= u < less.len() && 0 <= i < less[u].len() implies 0 <= (
    #[trigger] less[u][i]).cost < 0x4000_0000 by {
        assert(less[u][i] == adj[u][i]);
    }
}

/// A sound search knows a way to each node it has settled, at the cost of
/// the node's record.
pub proof fn lemma_settled_way(
    adj: Seq<Seq<LinkView>>,
    dir: IdxLinkDir,
    src: int,
    s: &Search,
    key: IdxNodeKey,
)
    requires
        rooted(adj, dir, src, s),
        settled(s.records(), key.0),
    ensures
        leads(
            adj,
            dir,
            nodes_of(walk_back(s.records(), key, s.records().len()).reverse()),
            src,
            key.0 as int,
            s.records()[key.0].cost as int,
        ),
{
    let recs = s.records();
    let idx = choose|idx: Map<u32, nat>| tree_ok(adj, dir, src, recs, idx);
    crate::dijkstra::lemma_records_finite(s);
    lemma_done_bounded(recs);
    assert(record_ok(adj, dir, src, recs, idx, key.0));
    lemma_trail(adj, dir, src, recs, idx, key, recs.len());
}

/// The way that a sound search knows to a node it has settled passes no
/// node twice.
pub proof fn lemma_settled_simple(
    adj: Seq<Seq<LinkView>>,
    dir: IdxLinkDir,
    src: int,
    s: &Search,
    key: IdxNodeKey,
)
    requires
        rooted(adj, dir, src, s),
        settled(s.records(), key.0),
    ensures
        walk_back(s.records(), key, s.records().len()).reverse().no_duplicates(),
{
    let recs = s.records();
    let idx = choose|idx: Map<u32, nat>| tree_ok(adj, dir, src, recs, idx);
    lemma_trail_simple(adj, dir, src, recs, idx, key, recs.len());
    let back = walk_back(recs, key, recs.len());
    let way = back.reverse();
    assert forall|i: int, j: int| 0 <= i < way.len() && 0 <= j < way.len() && i != j implies way[i]
        != way[j] by {
        assert(way[i] == back[back.len() - 1 - i]);
        assert(way[j] == back[back.len() - 1 - j]);
    }
}

/// One step of the search from `src` over `rows` in direction `dir`: the
/// cheapest open node is settled and each of its links in that direction is
/// followed, as far as the search's limits admit and the cost stays below
/// `u32::MAX`. The links of node `avoid` are not followed. `None` when the
/// search is over.
pub fn expand(
    rows: &Vec<Vec<IdxLink>>,
    search: &mut Search,
    dir: IdxLinkDir,
    avoid: Option<IdxNodeKey>,
    Ghost(src): Ghost<int>,
) -> (r: Option<Entry>)
    requires
        sound(without(adj_of(rows@), avoid), dir, src, old(search)),
    ensures
        final(search).wf(),
        final(search).cost_limit == old(search).cost_limit,
        final(search).heap_limit == old(search).heap_limit,
        final(search).hop_limit == old(search).hop_limit,
        forall|j: u32|
            old(search).records().contains_key(j) ==> #[trigger] final(search).records().contains_key(j),
        forall|j: u32|
            #[trigger] settled(old(search).records(), j) ==> final(search).records()[j] == old(search).records()[j],
        match r {
            Some(e) => {
                &&& sound(without(adj_of(rows@), avoid), dir, src, final(search))
                &&& old(search).queue().contains(e)
                &&& !settled(old(search).records(), e.key.0)
                &&& old(search).records().contains_key(e.key.0)
                &&& settled(final(search).records(), e.key.0)
                &&& final(search).records()[e.key.0].cost == e.cost
                &&& old(search).records()[e.key.0].cost == e.cost
                &&& e.cost < old(search).cost_limit
                &&& done(final(search).records()) == done(old(search).records()).insert(e.key.0)
                &&& forall|j: u32|
                    old(search).records().contains_key(j) ==> (#[trigger] final(search).records()[j]).cost
                        <= old(search).records()[j].cost
                &&& ample(
                    old(search),
                    e,
                    without(adj_of(rows@), avoid)[e.key.0 as int].len() as int,
                ) ==> all_relaxed(
                    without(adj_of(rows@), avoid),
                    dir,
                    final(search).records(),
                    e.key.0,
                    without(adj_of(rows@), avoid)[e.key.0 as int].len() as int,
                    old(search).cost_limit as int,
                )
                &&& exact(without(adj_of(rows@), avoid), dir, src, old(search)) ==> exact(
                    without(adj_of(rows@), avoid),
                    dir,
                    src,
                    final(search),
                )
            },
            None => {
                &&& rooted(without(adj_of(rows@), avoid), dir, src, final(search))
                &&& final(search).records() == old(search).records()
                &&& final(search).queue().subset_of(old(search).queue())
                &&& forall|x: Entry| #[trigger]
                    final(search).queue().contains(x) ==> old(search).cost_limit <= x.cost
                &&& forall|x: Entry| #[trigger]
                    final(search).queue().count(x) < old(search).queue().count(x) ==> settled(
                        old(search).records(),
                        x.key.0,
                    ) || old(search).cost_limit <= x.cost
                &&& exact(without(adj_of(rows@), avoid), dir, src, old(search)) && calm(
                    without(adj_of(rows@), avoid),
                    dir,
                    src,
                ) ==> forall|v: int|
                    !(0 <= v < KEY_SPACE && settled(old(search).records(), v as u32))
                        ==> #[trigger] cheapest(
                        without(adj_of(rows@), avoid),
                        dir,
                        src,
                        v,
                        old(search).cost_limit as int,
                    )
            },
        },
{
    let ghost adj = without(adj_of(rows@), avoid);
    let ghost full = adj_of(rows@);
    let ghost s_old = *search;
    let ghost recs0 = search.records();
    let ghost queue0 = search.queue();
    let ghost was_free = exact(adj, dir, src, &s_old);
    let ghost limit = s_old.cost_limit as int;
    let ghost was_exact = was_free && calm(adj, dir, src);
    let ghost few = was_exact && small(adj);
    let ghost low = was_exact && !small(adj);
    let ghost idx0 = choose|idx: Map<u32, nat>| tree_ok(adj, dir, src, recs0, idx);
    let entry = match search.next() {
        None => {
            proof {
                if was_exact {
                    assert forall|v: int|
                        !(0 <= v < KEY_SPACE && settled(recs0, v as u32)) implies #[trigger] cheapest(
                        adj,
                        dir,
                        src,
                        v,
                        s_old.cost_limit as int,
                    ) by {
                        assert forall|nodes: Seq<int>, c: int| #[trigger]
                            leads(adj, dir, nodes, src, v, c) implies s_old.cost_limit <= c by {
                            if c < s_old.cost_limit {
                                lemma_frontier(
                                    adj,
                                    dir,
                                    src,
                                    recs0,
                                    nodes,
                                    c,
                                    s_old.cost_limit as int,
                                );
                                let y = choose|y: u32|
                                    recs0.contains_key(y) && !(#[trigger] recs0[y]).visited
                                        && recs0[y].cost <= c;
                                assert(waits(queue0, recs0[y].cost, y));
                                let h = choose|h: u16|
                                    queue0.contains(#[trigger] entry_of(recs0[y].cost, h, y));
                                let z = entry_of(recs0[y].cost, h, y);
                                if search.queue().count(z) < queue0.count(z) {
                                    assert(settled(recs0, y) || s_old.cost_limit <= z.cost);
                                } else {
                                    assert(search.queue().contains(z));
                                }
                            }
                        }
                    }
                }
            }
            return None;
        },
        Some(e) => e,
    };
    let key = entry.key;
    let ghost k = key.0;
    let ghost idx1 = idx0.insert(k, done(recs0).len());
    proof {
        lemma_popped(recs0, queue0, search.queue(), entry);
        assert(search.records() =~= settle(recs0, k));
        crate::dijkstra::lemma_records_finite(&s_old);
        lemma_settle_tree(adj, dir, src, recs0, idx0, k);
        lemma_settle_queue(recs0, queue0, search.queue(), entry);
        lemma_done_grows(recs0, k);
        assert(record_ok(adj, dir, src, recs0, idx0, k));
        if was_exact {
            assert forall|nodes: Seq<int>, c: int| #[trigger]
                leads(adj, dir, nodes, src, k as int, c) implies entry.cost <= c by {
                if c < s_old.cost_limit {
                    lemma_frontier(adj, dir, src, recs0, nodes, c, s_old.cost_limit as int);
                    let y = choose|y: u32|
                        recs0.contains_key(y) && !(#[trigger] recs0[y]).visited && recs0[y].cost
                            <= c;
                    assert(entry.cost <= recs0[y].cost);
                }
            }
            lemma_settle_exact(adj, dir, src, recs0, k, s_old.cost_limit as int);
            assert(queue0.contains(entry));
            if few {
                // the entry counts fewer hops than nodes are settled now
                lemma_done_within(adj, dir, src, search.records(), idx1);
                assert(entry.hop <= done(recs0).len());
                assert forall|x: Entry| #[trigger] search.queue().contains(x) implies x.hop <= done(
                    search.records(),
                ).len() by {
                    assert(queue0.contains(x));
                }
            } else {
                // the entry stands for a cheapest way, which is short
                assert(footed(adj, dir, src, recs0, entry));
                assert(cheapest(adj, dir, src, k as int, entry.cost as int));
                assert forall|x: Entry| #[trigger] search.queue().contains(x) implies footed(
                    adj,
                    dir,
                    src,
                    search.records(),
                    x,
                ) by {
                    assert(queue0.contains(x));
                    lemma_footed_stays(adj, dir, src, recs0, search.records(), x);
                }
            }
        }
    }
    let ghost trail = if low {
        choose|nodes: Seq<int>|
            #[trigger] leads(adj, dir, nodes, src, k as int, entry.cost as int) && nodes.len()
                == entry.hop + 1 && nodes.no_duplicates() && settled_before(recs0, nodes)
    } else {
        Seq::<int>::empty()
    };
    proof {
        if low {
            assert(low_ways(adj, dir, src));
            assert(trail.len() <= u16::MAX);
            crate::search::lemma_way_nodes(adj, dir, trail, entry.cost as int);
            assert forall|i: int| 0 <= i < trail.len() implies settled(
                search.records(),
                (#[trigger] trail[i]) as u32,
            ) by {
                if i < trail.len() - 1 {
                    assert(settled(recs0, trail[i] as u32));
                }
            }
        }
    }
    let ghost roomy = ample(&s_old, entry, adj[k as int].len() as int);
    proof {
        if roomy {
            assert forall|j: u32| #[trigger] settled(search.records(), j) implies search.records()[j].cost
                <= entry.cost by {
                if j != k {
                    assert(settled(recs0, j));
                }
            }
        }
    }
    let skipped = match avoid {
        Some(a) => a.0 == key.0,
        None => false,
    };
    if skipped {
        proof {
            assert(adj[k as int].len() == 0);
            if was_exact {
                assert(exact_ok(adj, dir, src, search.records(), -1, 0, s_old.cost_limit as int));
            }
        }
        return Some(entry);
    }
    let row = &rows[key.index()];
    let mut i: usize = 0;
    while i < row.len()
        invariant
            adj == without(adj_of(rows@), avoid),
            adj[k as int] == adj_of(rows@)[k as int],
            0 <= src < adj.len() <= KEY_SPACE,
            in_range(adj),
            costs_sane(adj),
            k == key.0,
            key == entry.key,
            k < rows@.len(),
            row@ == rows@[k as int]@,
            i <= row.len(),
            search.wf(),
            search.cost_limit == s_old.cost_limit,
            search.heap_limit == s_old.heap_limit,
            search.hop_limit == s_old.hop_limit,
            tree_ok(adj, dir, src, search.records(), idx1),
            queue_ok(search.records(), search.queue()),
            search.records().contains_key(src as u32),
            search.records()[src as u32].cost == 0,
            settled(search.records(), k),
            search.records()[k].cost == entry.cost,
            was_exact ==> entry.hop < u16::MAX,
            few ==> was_exact && small(adj),
            low ==> was_exact && !small(adj),
            was_exact ==> few || low,
            few ==> entry.hop < done(search.records()).len(),
            few ==> shallow(search.records(), search.queue()),
            low ==> traced(adj, dir, src, search.records(), search.queue()),
            low ==> leads(adj, dir, trail, src, k as int, entry.cost as int) && trail.len()
                == entry.hop + 1 && trail.no_duplicates(),
            low ==> forall|i: int|
                0 <= i < trail.len() ==> settled(search.records(), (#[trigger] trail[i]) as u32) && 0
                    <= trail[i] < 0x1_0000_0000,
            done(search.records()) == done(recs0).insert(k),
            forall|j: u32| recs0.contains_key(j) ==> #[trigger] search.records().contains_key(j),
            forall|j: u32| #[trigger] settled(recs0, j) ==> search.records()[j] == recs0[j],
            was_exact ==> was_free,
            was_free ==> unlimited(search),
            limit == s_old.cost_limit,
            roomy ==> s_old.added() + row.len() <= s_old.heap_limit && entry.hop < s_old.hop_limit,
            roomy ==> search.added() <= s_old.added() + i,
            roomy ==> all_relaxed(adj, dir, search.records(), k, i as int, limit),
            roomy ==> forall|j: u32| #[trigger]
                settled(search.records(), j) ==> search.records()[j].cost <= entry.cost,
            forall|j: u32|
                recs0.contains_key(j) ==> (#[trigger] search.records()[j]).cost <= recs0[j].cost,
            was_exact ==> exact_ok(
                adj,
                dir,
                src,
                search.records(),
                k as int,
                i as int,
                s_old.cost_limit as int,
            ),
            was_exact ==> forall|j: u32| #[trigger]
                settled(search.records(), j) ==> search.records()[j].cost <= entry.cost,
        decreases row.len() - i,
    {
        let link = row[i];
        let ghost s0 = *search;
        assert(link@ == adj_of(rows@)[k as int][i as int]);
        assert(targets_within(adj[k as int], adj.len() as int));
        if link.dir() == dir {
            let next_key = link.enode_idx();
            let next_cost: u64 = entry.cost as u64 + link.cost() as u64;
            if next_cost < u32::MAX as u64 {
                let taken = search.update(&entry, next_key, next_cost as u32);
                proof {
                    assert(next_key == IdxNodeKey(adj[k as int][i as int].to as u32));
                    lemma_relax(
                        adj,
                        dir,
                        src,
                        &s0,
                        &*search,
                        idx1,
                        entry,
                        i as int,
                        next_cost as u32,
                        taken,
                    );
                    assert(done(search.records()) =~= done(s0.records()));
                    if few {
                        assert forall|x: Entry| #[trigger] search.queue().contains(x) implies x.hop
                            <= done(search.records()).len() by {
                            if !s0.queue().contains(x) {
                                assert(x.hop == entry.hop + 1);
                            }
                        }
                    }
                    if low {
                        assert forall|x: Entry| #[trigger] search.queue().contains(x) implies footed(
                            adj,
                            dir,
                            src,
                            search.records(),
                            x,
                        ) by {
                            if s0.queue().contains(x) {
                                lemma_footed_stays(adj, dir, src, s0.records(), search.records(), x);
                            } else {
                                let t = adj[k as int][i as int].to;
                                assert(adj[k as int][i as int] == (LinkView {
                                    to: t,
                                    cost: adj[k as int][i as int].cost,
                                    dir: dir,
                                }));
                                lemma_footed_next(
                                    adj,
                                    dir,
                                    src,
                                    search.records(),
                                    trail,
                                    entry,
                                    t,
                                    adj[k as int][i as int].cost,
                                    x,
                                );
                            }
                        }
                    }
                }
            }
        }
        proof {
            if was_exact {
                lemma_relax_exact(adj, dir, src, &s0, &*search, entry, i as int);
            }
            if roomy {
                lemma_relax_ample(adj, dir, &s0, &*search, entry, i as int);
            }
        }
        i += 1;
    }
    Some(entry)
}

impl Graph {
    /// One step of a search over the graph.
    pub(crate) fn search_step(
        &self,
        search: &mut Search,
        dir: IdxLinkDir,
        Ghost(src): Ghost<int>,
    ) -> (r: Option<Entry>)
        requires
            sound(self.adj(), dir, src, old(search)),
        ensures
            final(search).wf(),
            final(search).cost_limit == old(search).cost_limit,
            final(search).heap_limit == old(search).heap_limit,
            final(search).hop_limit == old(search).hop_limit,
            forall|j: u32|
                old(search).records().contains_key(j) ==> #[trigger] final(search).records().contains_key(j),
            forall|j: u32|
                #[trigger] settled(old(search).records(), j) ==> final(search).records()[j]
                    == old(search).records()[j],
            match r {
                Some(e) => {
                    &&& sound(self.adj(), dir, src, final(search))
                    &&& !settled(old(search).records(), e.key.0)
                    &&& old(search).records().contains_key(e.key.0)
                    &&& settled(final(search).records(), e.key.0)
                    &&& final(search).records()[e.key.0].cost == e.cost
                    &&& old(search).records()[e.key.0].cost == e.cost
                    &&& e.cost < old(search).cost_limit
                    &&& done(final(search).records()) == done(old(search).records()).insert(
                        e.key.0,
                    )
                    &&& exact(self.adj(), dir, src, old(search)) ==> exact(
                        self.adj(),
                        dir,
                        src,
                        final(search),
                    )
                },
                None => {
                    &&& rooted(self.adj(), dir, src, final(search))
                    &&& final(search).records() == old(search).records()
                    &&& final(search).queue().subset_of(old(search).queue())
                    &&& forall|x: Entry| #[trigger]
                        final(search).queue().contains(x) ==> old(search).cost_limit <= x.cost
                    &&& exact(self.adj(), dir, src, old(search)) && calm(self.adj(), dir, src) ==> forall|v: int|
                        !(0 <= v < KEY_SPACE && settled(old(search).records(), v as u32))
                            ==> #[trigger] cheapest(
                            self.adj(),
                            dir,
                            src,
                            v,
                            old(search).cost_limit as int,
                        )
                },
            },
    {
        expand(&self.idx_links, search, dir, None, Ghost(src))
    }

    /// A way from `src` to `dst` along the arcs that passes no node twice,
    /// with its cost. Where the search turns no step away for the hops it
    /// counts (the graph has at most `u16::MAX` nodes, or no cheapest way from
    /// `src` that passes no node twice has that many links) it is the
    /// cheapest way, and `None` says that no way costs less than `u32::MAX`.
    pub fn search(&self, src: IdxNodeKey, dst: IdxNodeKey) -> (r: Option<(Vec<IdxNodeKey>, u32)>)
        requires
            self.wf(),
            src.0 < self.node_len,
        ensures
            match r {
                Some((path, cost)) => {
                    &&& leads(
                        self.adj(),
                        IdxLinkDir::Forward,
                        nodes_of(path@),
                        src.0 as int,
                        dst.0 as int,
                        cost as int,
                    )
                    &&& (calm(self.adj(), IdxLinkDir::Forward, src.0 as int) ==> cheapest(
                        self.adj(),
                        IdxLinkDir::Forward,
                        src.0 as int,
                        dst.0 as int,
                        cost as int,
                    ))
                    &&& cost < u32::MAX
                    &&& path@.no_duplicates()
                },
                None => calm(self.adj(), IdxLinkDir::Forward, src.0 as int) ==> cheapest(
                    self.adj(),
                    IdxLinkDir::Forward,
                    src.0 as int,
                    dst.0 as int,
                    u32::MAX as int,
                ),
            },
    {
        let ghost adj = self.adj();
        let ghost dir = IdxLinkDir::Forward;
        let mut search = Search::new();
        search.add_src(src);
        proof {
            lemma_adj_of_costs(self.idx_links@);
            lemma_started(adj, dir, src, &search);
        }
        loop
            invariant
                self.wf(),
                adj == self.adj(),
                dir == IdxLinkDir::Forward,
                exact(adj, dir, src.0 as int, &search),
                search.cost_limit == u32::MAX,
                !settled(search.records(), dst.0),
            decreases adj.len() - done(search.records()).len(),
        {
            proof {
                let idx = choose|idx: Map<u32, nat>|
                    tree_ok(adj, dir, src.0 as int, search.records(), idx);
                lemma_done_within(adj, dir, src.0 as int, search.records(), idx);
            }
            let ghost recs0 = search.records();
            match self.search_step(&mut search, IdxLinkDir::Forward, Ghost(src.0 as int)) {
                None => {
                    return None;
                },
                Some(entry) => {
                    proof {
                        let idx = choose|idx: Map<u32, nat>|
                            tree_ok(adj, dir, src.0 as int, search.records(), idx);
                        lemma_done_within(adj, dir, src.0 as int, search.records(), idx);
                        assert(!done(recs0).contains(entry.key.0));
                    }
                    if entry.key == dst {
                        let decoded = search.decode(dst);
                        proof {
                            lemma_settled_way(adj, dir, src.0 as int, &search, dst);
                            lemma_settled_simple(adj, dir, src.0 as int, &search, dst);
                        }
                        return Some((decoded, entry.cost));
                    }
                    assert(!settled(search.records(), dst.0)) by {
                        if settled(search.records(), dst.0) {
                            assert(done(search.records()).contains(dst.0));
                        }
                    }
                },
            }
        }
    }
}

/// Every node of a way that starts at a node of the array is a node of the
/// array.
pub proof fn lemma_way_nodes(adj: Seq<Seq<LinkView>>, dir: IdxLinkDir, nodes: Seq<int>, cost: int)
    requires
        in_range(adj),
        costs_sane(adj),
        is_way(adj, dir, nodes, cost),
        0 <= nodes[0] < adj.len(),
    ensures
        forall|i: int| 0 <= i < nodes.len() ==> 0 <= #[trigger] nodes[i] < adj.len(),
    decreases nodes.len(),
{
    if nodes.len() > 1 {
        let w = choose|w: int|
            #[trigger] step(adj, dir, nodes[nodes.len() - 2], nodes.last(), w) && is_way(
                adj,
                dir,
                nodes.drop_last(),
                cost - w,
            );
        lemma_step_bounds(adj, dir, nodes[nodes.len() - 2], nodes.last(), w);
        assert(nodes.drop_last()[0] == nodes[0]);
        lemma_way_nodes(adj, dir, nodes.drop_last(), cost - w);
        assert forall|i: int| 0 <= i < nodes.len() implies 0 <= #[trigger] nodes[i] < adj.len() by {
            if i < nodes.len() - 1 {
                assert(nodes.drop_last()[i] == nodes[i]);
            }
        }
    }
}

/// The two ways meet: `up` climbs from `src` along the arcs to the node
/// where `down`, followed against the arcs from `dst`, ends, and together
/// they cost `cost`.
pub open spec fn meeting(
    adj: Seq<Seq<LinkView>>,
    src: IdxNodeKey,
    dst: IdxNodeKey,
    up: Seq<IdxNodeKey>,
    down: Seq<IdxNodeKey>,
    cost: int,
) -> bool {
    exists|a: int, b: int|
        {
            &&& #[trigger] leads(
                adj,
                IdxLinkDir::Forward,
                nodes_of(up),
                src.0 as int,
                up.last().0 as int,
                a,
            )
            &&& #[trigger] leads(
                adj,
                IdxLinkDir::Backward,
                nodes_of(down),
                dst.0 as int,
                up.last().0 as int,
                b,
            )
            &&& cost == a + b
        }
}

/// Neither the search from `src` along the arcs nor the search from `dst`
/// against them turns a step away for the hops it counts.
pub open spec fn both_calm(adj: Seq<Seq<LinkView>>, src: int, dst: int) -> bool {
    calm(adj, IdxLinkDir::Forward, src) && calm(adj, IdxLinkDir::Backward, dst)
}

/// No way from `src` along the arcs and way from `dst` against them that end
/// at the same node cost less than `cost` together.
pub open spec fn no_cheaper_meeting(adj: Seq<Seq<LinkView>>, src: int, dst: int, cost: int) -> bool {
    forall|up: Seq<int>, down: Seq<int>, x: int, a: int, b: int|
        #[trigger] leads(adj, IdxLinkDir::Forward, up, src, x, a) && #[trigger] leads(
            adj,
            IdxLinkDir::Backward,
            down,
            dst,
            x,
            b,
        ) ==> cost <= a + b
}

/// Every settled cost is the cheapest, where the search turns no step away.
pub open spec fn settled_cheapest(
    adj: Seq<Seq<LinkView>>,
    dir: IdxLinkDir,
    src: int,
    recs: Map<u32, Record>,
) -> bool {
    calm(adj, dir, src) ==> forall|k: u32| #[trigger]
        settled(recs, k) ==> cheapest(adj, dir, src, k as int, recs[k].cost as int)
}

/// No way to a node that is not settled costs less than `bound`, where the
/// search turns no step away.
pub open spec fn spent(
    adj: Seq<Seq<LinkView>>,
    dir: IdxLinkDir,
    src: int,
    recs: Map<u32, Record>,
    bound: int,
) -> bool {
    calm(adj, dir, src) ==> forall|v: int|
        !(0 <= v < KEY_SPACE && settled(recs, v as u32)) ==> #[trigger] cheapest(
            adj,
            dir,
            src,
            v,
            bound,
        )
}

/// Wherever both searches have settled a node, the two costs add up to no
/// less than `cost`.
pub open spec fn met(f: Map<u32, Record>, b: Map<u32, Record>, cost: int) -> bool {
    forall|m: u32|
        #![trigger settled(f, m), settled(b, m)]
        settled(f, m) && settled(b, m) ==> cost <= f[m].cost + b[m].cost
}

/// Two searches that have both run dry, and have weighed every node that
/// both have settled, have found the cheapest meeting.
pub proof fn lemma_spent_both(
    adj: Seq<Seq<LinkView>>,
    src: int,
    dst: int,
    f: Map<u32, Record>,
    b: Map<u32, Record>,
    bound_f: int,
    bound_b: int,
    cost: int,
)
    requires
        in_range(adj),
        costs_sane(adj),
        0 <= src < adj.len() <= KEY_SPACE,
        0 <= dst < adj.len(),
        settled_cheapest(adj, IdxLinkDir::Forward, src, f),
        settled_cheapest(adj, IdxLinkDir::Backward, dst, b),
        spent(adj, IdxLinkDir::Forward, src, f, bound_f),
        spent(adj, IdxLinkDir::Backward, dst, b, bound_b),
        met(f, b, cost),
        cost <= bound_f,
        cost <= bound_b,
        calm(adj, IdxLinkDir::Forward, src),
        calm(adj, IdxLinkDir::Backward, dst),
    ensures
        no_cheaper_meeting(adj, src, dst, cost),
{
    assert forall|up: Seq<int>, down: Seq<int>, x: int, p: int, q: int|
        #[trigger] leads(adj, IdxLinkDir::Forward, up, src, x, p) && #[trigger] leads(
            adj,
            IdxLinkDir::Backward,
            down,
            dst,
            x,
            q,
        ) implies cost <= p + q by {
        crate::paths::lemma_way_bounds(adj, IdxLinkDir::Forward, up, p);
        crate::paths::lemma_way_bounds(adj, IdxLinkDir::Backward, down, q);
        if p + q < cost {
            assert(0 <= x < adj.len());
            let m = x as u32;
            if !settled(f, m) {
                assert(cheapest(adj, IdxLinkDir::Forward, src, x, bound_f));
            }
            if !settled(b, m) {
                assert(cheapest(adj, IdxLinkDir::Backward, dst, x, bound_b));
            }
            assert(cheapest(adj, IdxLinkDir::Forward, src, m as int, f[m].cost as int));
            assert(cheapest(adj, IdxLinkDir::Backward, dst, m as int, b[m].cost as int));
        }
    }
}

/// The cheapest meeting of two searches over `rows`: one from `src` along
/// the arcs, one from `dst` against them. Each search stops where its
/// cheapest open node costs as much as the best meeting so far. Returns the
/// way up from `src` and the way back from `dst`, which end at the same node,
/// and what both cost together; `None` when the searches do not meet below
/// `u32::MAX`. Where neither search turns a step away for the hops it
/// counts, no meeting is cheaper.
pub fn meet(rows: &Vec<Vec<IdxLink>>, src: IdxNodeKey, dst: IdxNodeKey) -> (r: Option<
    (Vec<IdxNodeKey>, Vec<IdxNodeKey>, u32),
>)
    requires
        rows@.len() <= KEY_SPACE,
        in_range(adj_of(rows@)),
        src.0 < rows@.len(),
        dst.0 < rows@.len(),
    ensures
        match r {
            Some((up, down, cost)) => {
                &&& meeting(adj_of(rows@), src, dst, up@, down@, cost as int)
                &&& (both_calm(adj_of(rows@), src.0 as int, dst.0 as int) ==> no_cheaper_meeting(
                    adj_of(rows@),
                    src.0 as int,
                    dst.0 as int,
                    cost as int,
                ))
                &&& up@.len() > 0
                &&& down@.len() > 0
                &&& up@.last() == down@.last()
                &&& cost < u32::MAX
            },
            None => both_calm(adj_of(rows@), src.0 as int, dst.0 as int) ==> no_cheaper_meeting(
                adj_of(rows@),
                src.0 as int,
                dst.0 as int,
                u32::MAX as int,
            ),
        },
{
    let ghost adj = adj_of(rows@);
    let ghost n = adj.len() as int;
    let ghost s = src.0 as int;
    let ghost t = dst.0 as int;
    let ghost fw = IdxLinkDir::Forward;
    let ghost bw = IdxLinkDir::Backward;
    let mut search_f = Search::new();
    search_f.add_src(src);
    let mut search_b = Search::new();
    search_b.add_src(dst);
    proof {
        lemma_adj_of_costs(rows@);
        lemma_started(adj, fw, src, &search_f);
        lemma_started(adj, bw, dst, &search_b);
    }
    let mut min_cost: u32 = u32::MAX;
    let mut min_key = IdxNodeKey::new(0);
    let mut alive_f = true;
    let mut alive_b = true;
    let ghost mut bound_f: int = u32::MAX as int;
    let ghost mut bound_b: int = u32::MAX as int;
    loop
        invariant
            adj == adj_of(rows@),
            n == adj.len(),
            s == src.0,
            t == dst.0,
            fw == IdxLinkDir::Forward,
            bw == IdxLinkDir::Backward,
            rooted(adj, fw, s, &search_f),
            rooted(adj, bw, t, &search_b),
            alive_f ==> exact(adj, fw, s, &search_f) && min_cost <= search_f.cost_limit,
            alive_b ==> exact(adj, bw, t, &search_b) && min_cost <= search_b.cost_limit,
            !alive_f ==> spent(adj, fw, s, search_f.records(), bound_f) && min_cost <= bound_f,
            !alive_b ==> spent(adj, bw, t, search_b.records(), bound_b) && min_cost <= bound_b,
            settled_cheapest(adj, fw, s, search_f.records()),
            settled_cheapest(adj, bw, t, search_b.records()),
            met(search_f.records(), search_b.records(), min_cost as int),
            min_cost < u32::MAX ==> settled(search_f.records(), min_key.0) && settled(
                search_b.records(),
                min_key.0,
            ) && min_cost == search_f.records()[min_key.0].cost + search_b.records()[min_key.0].cost,
        ensures
            !alive_f,
            !alive_b,
        decreases 2 * n - done(search_f.records()).len() - done(search_b.records()).len(),
    {
        proof {
            let idx = choose|idx: Map<u32, nat>| tree_ok(adj, fw, s, search_f.records(), idx);
            lemma_done_within(adj, fw, s, search_f.records(), idx);
            let idx = choose|idx: Map<u32, nat>| tree_ok(adj, bw, t, search_b.records(), idx);
            lemma_done_within(adj, bw, t, search_b.records(), idx);
            if alive_f && calm(adj, fw, s) {
                lemma_exact_lower(
                    adj,
                    fw,
                    s,
                    search_f.records(),
                    search_f.cost_limit as int,
                    min_cost as int,
                );
            }
            if alive_b && calm(adj, bw, t) {
                lemma_exact_lower(
                    adj,
                    bw,
                    t,
                    search_b.records(),
                    search_b.cost_limit as int,
                    min_cost as int,
                );
            }
        }
        // update threshold
        search_f.cost_limit = min_cost;
        search_b.cost_limit = min_cost;
        let mut updated = false;
        let ghost done_f0 = done(search_f.records());
        let ghost done_b0 = done(search_b.records());
        if alive_f {
            let ghost f0 = search_f.records();
            let ghost b0 = search_b.records();
            match expand(rows, &mut search_f, IdxLinkDir::Forward, None, Ghost(s)) {
                Some(entry) => {
                    updated = true;
                    proof {
                        let idx = choose|idx: Map<u32, nat>|
                            tree_ok(adj, fw, s, search_f.records(), idx);
                        lemma_done_within(adj, fw, s, search_f.records(), idx);
                        assert(!done_f0.contains(entry.key.0));
                        assert forall|m: u32|
                            m != entry.key.0 && #[trigger] settled(
                                search_f.records(),
                                m,
                            ) implies settled(f0, m) by {
                            assert(done(search_f.records()).contains(m));
                            assert(done_f0.contains(m));
                        }
                    }
                    assert(min_cost < u32::MAX ==> settled(search_f.records(), min_key.0));
                    assert(min_cost < u32::MAX ==> settled(search_b.records(), min_key.0));
                    let ghost was = min_cost;
                    let mut weighed = false;
                    match search_b.get_cost(&entry.key) {
                        Some(cost) => {
                            if cost.visited {
                                weighed = true;
                                let total: u64 = entry.cost as u64 + cost.cost as u64;
                                if total < min_cost as u64 {
                                    min_cost = total as u32;
                                    min_key = entry.key;
                                    assert(settled(search_b.records(), min_key.0));
                                    assert(settled(search_f.records(), min_key.0));
                                }
                            }
                        },
                        None => {
                            weighed = true;
                        },
                    }
                    proof {
                        assert forall|m: u32|
                            #![trigger settled(search_f.records(), m), settled(search_b.records(), m)]
                            settled(search_f.records(), m) && settled(
                                search_b.records(),
                                m,
                            ) implies min_cost <= search_f.records()[m].cost
                            + search_b.records()[m].cost by {
                            if m != entry.key.0 {
                                assert(settled(f0, m) && settled(b0, m));
                                assert(was <= f0[m].cost + b0[m].cost);
                            }
                        }
                    }
                    if !weighed {
                        continue ;
                    }
                },
                None => {
                    alive_f = false;
                    proof {
                        bound_f = min_cost as int;
                    }
                },
            }
        }
        if alive_b {
            let ghost f0 = search_f.records();
            let ghost b0 = search_b.records();
            let ghost limit = search_b.cost_limit;
            match expand(rows, &mut search_b, IdxLinkDir::Backward, None, Ghost(t)) {
                Some(entry) => {
                    updated = true;
                    proof {
                        let idx = choose|idx: Map<u32, nat>|
                            tree_ok(adj, bw, t, search_b.records(), idx);
                        lemma_done_within(adj, bw, t, search_b.records(), idx);
                        assert(!done_b0.contains(entry.key.0));
                        assert forall|m: u32|
                            m != entry.key.0 && #[trigger] settled(
                                search_b.records(),
                                m,
                            ) implies settled(b0, m) by {
                            assert(done(search_b.records()).contains(m));
                            assert(done_b0.contains(m));
                        }
                    }
                    assert(min_cost < u32::MAX ==> settled(search_f.records(), min_key.0));
                    assert(min_cost < u32::MAX ==> settled(search_b.records(), min_key.0));
                    let ghost was = min_cost;
                    let mut weighed = false;
                    match search_f.get_cost(&entry.key) {
                        Some(cost) => {
                            if cost.visited {
                                weighed = true;
                                let total: u64 = entry.cost as u64 + cost.cost as u64;
                                if total < min_cost as u64 {
                                    min_cost = total as u32;
                                    min_key = entry.key;
                                    assert(settled(search_b.records(), min_key.0));
                                    assert(settled(search_f.records(), min_key.0));
                                }
                            }
                        },
                        None => {
                            weighed = true;
                        },
                    }
                    proof {
                        assert forall|m: u32|
                            #![trigger settled(search_f.records(), m), settled(search_b.records(), m)]
                            settled(search_f.records(), m) && settled(
                                search_b.records(),
                                m,
                            ) implies min_cost <= search_f.records()[m].cost
                            + search_b.records()[m].cost by {
                            if m != entry.key.0 {
                                assert(settled(f0, m) && settled(b0, m));
                                assert(was <= f0[m].cost + b0[m].cost);
                            }
                        }
                    }
                    if !weighed {
                        continue ;
                    }
                },
                None => {
                    alive_b = false;
                    proof {
                        bound_b = limit as int;
                    }
                },
            }
        }
        if !updated {
            break ;
        }
    }
    proof {
        if both_calm(adj, s, t) {
            lemma_spent_both(
                adj,
                s,
                t,
                search_f.records(),
                search_b.records(),
                bound_f,
                bound_b,
                min_cost as int,
            );
        }
    }
    if min_cost == u32::MAX {
        return None;
    }
    let path_f = search_f.decode(min_key);
    let path_b = search_b.decode(min_key);
    proof {
        lemma_settled_way(adj, fw, s, &search_f, min_key);
        lemma_settled_way(adj, bw, t, &search_b, min_key);
        assert(path_f@.last() == min_key);
        assert(meeting(adj, src, dst, path_f@, path_b@, min_cost as int));
    }
    Some((path_f, path_b, min_cost))
}

/// The nodes that a joined list of keys names are the nodes of its parts.
pub proof fn lemma_nodes_joined(a: Seq<IdxNodeKey>, b: Seq<IdxNodeKey>)
    ensures
        nodes_of(a + b) == nodes_of(a) + nodes_of(b),
        nodes_of(a.reverse()) == nodes_of(a).reverse(),
        a.len() > 0 ==> nodes_of(a.drop_last()) == nodes_of(a).drop_last(),
{
    assert(nodes_of(a + b) =~= nodes_of(a) + nodes_of(b));
    assert(nodes_of(a.reverse()) =~= nodes_of(a).reverse());
    if a.len() > 0 {
        assert(nodes_of(a.drop_last()) =~= nodes_of(a).drop_last());
    }
}

impl Graph {
    /// A way from `src` to `dst` along the arcs, with its cost, found by two
    /// searches that meet: one from `src` along the arcs, one from `dst`
    /// against them. `None` when the searches do not meet. Where neither
    /// search turns a step away for the hops it counts, the way is the
    /// cheapest.
    pub fn search_bidir(&self, src: IdxNodeKey, dst: IdxNodeKey) -> (r: Option<
        (Vec<IdxNodeKey>, u32),
    >)
        requires
            self.wf(),
            src.0 < self.node_len,
            dst.0 < self.node_len,
        ensures
            match r {
                Some((path, cost)) => {
                    &&& leads(
                        self.adj(),
                        IdxLinkDir::Forward,
                        nodes_of(path@),
                        src.0 as int,
                        dst.0 as int,
                        cost as int,
                    )
                    &&& (both_calm(self.adj(), src.0 as int, dst.0 as int) ==> cheapest(
                        self.adj(),
                        IdxLinkDir::Forward,
                        src.0 as int,
                        dst.0 as int,
                        cost as int,
                    ))
                    &&& cost < u32::MAX
                },
                None => both_calm(self.adj(), src.0 as int, dst.0 as int) ==> cheapest(
                    self.adj(),
                    IdxLinkDir::Forward,
                    src.0 as int,
                    dst.0 as int,
                    u32::MAX as int,
                ),
            },
    {
        let ghost adj = self.adj();
        let found = meet(&self.idx_links, src, dst);
        proof {
            let bound = match found {
                Some((_, _, cost)) => cost as int,
                None => u32::MAX as int,
            };
            if both_calm(adj, src.0 as int, dst.0 as int) {
                assert forall|nodes: Seq<int>, c: int| #[trigger]
                    leads(adj, IdxLinkDir::Forward, nodes, src.0 as int, dst.0 as int, c) implies bound
                    <= c by {
                    let stay = seq![dst.0 as int];
                    assert(leads(adj, IdxLinkDir::Backward, stay, dst.0 as int, dst.0 as int, 0));
                }
            }
        }
        let (mut path_f, path_b, cost) = match found {
            None => {
                return None;
            },
            Some(found) => found,
        };
        let ghost up = path_f@;
        let ghost down = path_b@;
        let mut path_b = reversed(&path_b);
        path_f.pop();
        path_f.append(&mut path_b);
        proof {
            let (a, b) = choose|a: int, b: int|
                {
                    &&& #[trigger] leads(
                        adj,
                        IdxLinkDir::Forward,
                        nodes_of(up),
                        src.0 as int,
                        up.last().0 as int,
                        a,
                    )
                    &&& #[trigger] leads(
                        adj,
                        IdxLinkDir::Backward,
                        nodes_of(down),
                        dst.0 as int,
                        up.last().0 as int,
                        b,
                    )
                    &&& cost == a + b
                };
            crate::adjacency::lemma_paired_is_mated(adj);
            crate::paths::lemma_way_reversed(adj, IdxLinkDir::Backward, nodes_of(down), b);
            let back = nodes_of(down).reverse();
            assert(back[0] == nodes_of(down).last());
            assert(back.last() == nodes_of(down)[0]);
            crate::paths::lemma_way_concat(adj, IdxLinkDir::Forward, nodes_of(up), a, back, b);
            assert(path_f@ =~= up.drop_last() + down.reverse());
            lemma_nodes_joined(up.drop_last(), down.reverse());
            lemma_nodes_joined(down, down);
            lemma_nodes_joined(up, up);
            let joined = nodes_of(up).drop_last() + back;
            assert(nodes_of(path_f@) == joined);
            assert(joined.last() == back.last());
            if up.len() > 1 {
                assert(joined[0] == nodes_of(up)[0]);
            } else {
                assert(joined[0] == back[0]);
            }
        }
        Some((path_f, cost))
    }
}

} // verus!
