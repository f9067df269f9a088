//! Finishing a hierarchy, loading one from its parts, and the query: two
//! searches that climb the hierarchy, one from each end.

use crate::adjacency::{links_view, mated, targets_within};
use crate::agreement::{
    lemma_answer_costs, lemma_answer_is_real, lemma_answer_walks,
    lemma_cheapest_meeting_is_cheapest_way, lemma_query_cost_is_cheapest, lemma_ready_framed,
};
use crate::builder::{modest, quiet, BuildReport};
use crate::ch::{shortcut_within, CH};
use crate::contraction::plain;
use crate::course::{lemma_decomposed_shuffled, lemma_faithful_shuffled, lemma_real_shuffled};
use crate::dijkstra::{reversed, settled, Search};
use crate::faithful::{all_through, faithful, lemma_full_mated, lemma_full_sane, real_shortcuts};
use crate::graph::Graph;
use crate::hierarchy::{contracted, ranked, shortcut_ok, shortcuts_ok, steady, with_links};
use crate::narrow::narrow;
use crate::network::{IdxLinkDir, IdxNodeKey, COST_SPAN, KEY_SPACE};
use crate::ordered::sort_by_start;
use crate::paths::{cheapest, cheapest_under, leads, lemma_adj_of_costs, nodes_of, step};
use crate::retrace::{decomposed, walks};
use crate::search::{both_calm, expand, lemma_way_nodes, meet, meeting, no_cheaper_meeting};
use crate::shortcut::{sorted_by_start, CHContraction};
use crate::shortest::{calm, done, exact, rooted, sound};
use crate::unpack::unfolded;
use crate::upward::{assemble, full_adj, query_adj};
use crate::witness::reaches;
use vstd::prelude::*;
use vstd::seq_lib::*;

verus! {

/// Why the parts of a hierarchy were turned down.
#[derive(Clone, Copy, Debug, PartialEq, Eq, Structural)]
pub enum ArtifactError {
    /// The graph has too many nodes for ranks of 32 bits.
    TooManyNodes,
    /// There is not one rank for each node of the graph.
    OrderLength,
    /// A shortcut names a node that the graph does not have, joins a node
    /// with itself, costs more than a link can carry, or runs through a node
    /// that was not contracted before both its ends.
    BadShortcut,
}

/// The shortcut can belong to a hierarchy with these ranks.
pub open spec fn shortcut_valid(ranks: Seq<u32>, c: CHContraction) -> bool {
    shortcut_within(c, ranks.len() as int) && shortcut_ok(ranks, c)
}

/// Every shortcut can belong to a hierarchy with these ranks.
pub open spec fn shortcuts_valid(ranks: Seq<u32>, list: Seq<CHContraction>) -> bool {
    forall|i: int| 0 <= i < list.len() ==> shortcut_valid(ranks, #[trigger] list[i])
}

/// What holds of each item of a list holds of each item of a list that has
/// the same items.
pub proof fn lemma_same_items(ranks: Seq<u32>, a: Seq<CHContraction>, b: Seq<CHContraction>)
    requires
        shortcuts_valid(ranks, a),
        a.to_multiset() == b.to_multiset(),
    ensures
        shortcuts_valid(ranks, b),
{
    broadcast use group_to_multiset_ensures;

    assert forall|i: int| 0 <= i < b.len() implies shortcut_valid(ranks, #[trigger] b[i]) by {
        assert(b.to_multiset().contains(b[i]));
        assert(a.to_multiset().contains(b[i]));
        assert(a.contains(b[i]));
        let j = choose|j: int| 0 <= j < a.len() && a[j] == b[i];
        assert(shortcut_valid(ranks, a[j]));
    }
}

/// `path` is what the meeting of two ways unpacks to: `up` from `src` along
/// the links of the hierarchy and `down` from `dst` against them, which
/// together cost `cost`.
pub open spec fn answers(
    ch: &CH,
    src: IdxNodeKey,
    dst: IdxNodeKey,
    path: Seq<IdxNodeKey>,
    cost: int,
) -> bool {
    exists|up: Seq<IdxNodeKey>, down: Seq<IdxNodeKey>|
        {
            &&& #[trigger] meeting(ch.up(), src, dst, up, down, cost)
            &&& path == unfolded(ch.shortcuts(), ch.ranks(), up.drop_last() + down.reverse())
        }
}

impl<'a> CH<'a> {
    /// The hierarchy is ready for queries: its shortcuts are sorted by their
    /// start and run through nodes of lower rank than their ends; its links
    /// are those of the graph and of the shortcuts, every arc at both its
    /// ends; and the links that queries follow are those among them that lead
    /// to a node of higher rank.
    pub open spec fn ready(&self) -> bool {
        &&& self.wf()
        &&& sorted_by_start(self.shortcuts())
        &&& shortcuts_ok(self.ranks(), self.shortcuts())
        &&& self.adj() == full_adj(self.graph().adj(), self.shortcuts())
        &&& self.up() == query_adj(self.graph().adj(), self.shortcuts(), self.ranks())
    }

    /// Sorts the shortcuts by their start and sets up the links for queries.
    pub(crate) fn finish(&mut self)
        requires
            old(self).wf(),
            shortcuts_ok(old(self).ranks(), old(self).shortcuts()),
        ensures
            final(self).ready(),
            final(self).graph() == old(self).graph(),
            final(self).ranks() == old(self).ranks(),
            final(self).shortcuts().to_multiset() == old(self).shortcuts().to_multiset(),
            sorted_by_start(old(self).shortcuts()) ==> final(self).shortcuts() == old(self).shortcuts(),
    {
        let ghost before = self.shortcuts();
        let ghost ranks = self.ranks();
        let ghost n = self.graph.node_len as int;
        if !is_sorted_by_start(&self.all_contractions) {
            sort_by_start(&mut self.all_contractions);
        }
        proof {
            assert(shortcuts_valid(ranks, before)) by {
                assert forall|i: int| 0 <= i < before.len() implies shortcut_valid(
                    ranks,
                    #[trigger] before[i],
                ) by {
                    assert(shortcut_within(before[i], n));
                    assert(shortcut_ok(ranks, before[i]));
                }
            }
            lemma_same_items(ranks, before, self.shortcuts());
            assert forall|i: int| 0 <= i < self.shortcuts().len() implies shortcut_within(
                #[trigger] self.shortcuts()[i],
                n,
            ) && shortcut_ok(ranks, self.shortcuts()[i]) && self.shortcuts()[i].length
                < COST_SPAN by {
                assert(shortcut_valid(ranks, self.shortcuts()[i]));
            }
            crate::paths::lemma_adj_of_costs(self.graph().idx_links@);
            crate::adjacency::lemma_paired_is_mated(self.graph().adj());
            lemma_full_sane(self.graph().adj(), self.shortcuts(), ranks);
        }
        let (full, upward) = assemble(self.graph, &self.order, &self.all_contractions);
        self.contractions = full;
        self.upward = upward;
    }

    /// Contracts every node that has links in the graph, and makes the
    /// hierarchy ready for queries. The nodes are contracted cheapest first;
    /// a node that was left without working links when the queue of nodes was
    /// built anew is contracted at the end. Returns what the build met on the
    /// way. Afterwards the nodes that have links have the ranks from 1 on,
    /// each its own, and the others none; where no node of the graph has two
    /// links to the same node in the same direction, no shortcut is listed
    /// twice; every shortcut stands for a way of
    /// the graph through the node it names; and every link of the hierarchy
    /// has its mate. Where the build did not prune the working links, the
    /// hierarchy is faithful, so that its queries find what the cheapest ways
    /// of the graph cost, as far as they cost less than `COST_SPAN`. Over a
    /// quiet graph the build never makes its queue anew and so never prunes;
    /// over a modest one it is clean; over a narrow one, a chain or a ring of
    /// whatever length, one-way or two-way, it never prunes either.
    pub fn build(&mut self) -> (report: BuildReport)
        requires
            old(self).fresh(),
        ensures
            final(self).ready(),
            final(self).graph() == old(self).graph(),
            ranked(final(self).ranks(), with_links(final(self).graph().adj()).len() as int),
            forall|u: int|
                0 <= u < final(self).ranks().len() ==> (final(self).ranks()[u] != u32::MAX <==> (
                #[trigger] final(self).graph().adj()[u]).len() > 0),
            mated(final(self).adj()),
            report.pruned <= report.rebuilds,
            report.pruned == 0 ==> faithful(
                final(self).graph().adj(),
                final(self).shortcuts(),
                final(self).ranks(),
            ),
            real_shortcuts(final(self).graph().adj(), final(self).shortcuts()),
            all_through(final(self).graph().adj(), final(self).shortcuts()),
            decomposed(final(self).graph().adj(), final(self).shortcuts()),
            plain(final(self).graph().adj()) ==> final(self).shortcuts().no_duplicates(),
            quiet(old(self).graph().adj()) ==> report.rebuilds == 0 && report.pruned == 0 && faithful(
                final(self).graph().adj(),
                final(self).shortcuts(),
                final(self).ranks(),
            ),
            modest(old(self).graph().adj()) ==> report.clean(),
            narrow(old(self).graph().adj()) ==> report.pruned == 0 && faithful(
                final(self).graph().adj(),
                final(self).shortcuts(),
                final(self).ranks(),
            ),
    {
        let report = self.contract_all();
        proof {
            let count = choose|count: int| #[trigger] steady(self, count);
            assert(ranked(self.ranks(), count));
            assert(contracted(self.ranks()) =~= with_links(self.graph().adj()));
        }
        let ghost made = self.shortcuts();
        self.finish();
        proof {
            lemma_real_shuffled(self.graph().adj(), made, self.shortcuts());
            if made.no_duplicates() {
                made.lemma_multiset_has_no_duplicates();
                self.shortcuts().lemma_multiset_has_no_duplicates_conv();
            }
            lemma_decomposed_shuffled(self.graph().adj(), made, self.shortcuts());
            if report.pruned == 0 {
                lemma_faithful_shuffled(self.graph().adj(), made, self.shortcuts(), self.ranks());
            }
            lemma_ready_framed(self);
            lemma_full_mated(self.graph().adj(), self.shortcuts(), self.ranks());
        }
        report
    }

    /// The hierarchy over `graph` with the given ranks and shortcuts, ready
    /// for queries. The parts are checked: an error says what is wrong with
    /// them.
    pub fn from_parts(graph: &'a Graph, order: Vec<u32>, shortcuts: Vec<CHContraction>) -> (r:
        Result<Self, ArtifactError>)
        requires
            graph.wf(),
        ensures
            match r {
                Ok(ch) => {
                    &&& graph.node_len < u32::MAX
                    &&& order@.len() == graph.node_len
                    &&& shortcuts_valid(order@, shortcuts@)
                    &&& ch.ready()
                    &&& mated(ch.adj())
                    &&& ch.graph() == graph
                    &&& ch.ranks() == order@
                    &&& ch.shortcuts().to_multiset() == shortcuts@.to_multiset()
                    &&& sorted_by_start(shortcuts@) ==> ch.shortcuts() == shortcuts@
                    &&& faithful(graph.adj(), shortcuts@, order@) ==> faithful(
                        graph.adj(),
                        ch.shortcuts(),
                        ch.ranks(),
                    )
                    &&& decomposed(graph.adj(), shortcuts@) ==> decomposed(
                        graph.adj(),
                        ch.shortcuts(),
                    )
                },
                Err(ArtifactError::TooManyNodes) => graph.node_len >= u32::MAX,
                Err(ArtifactError::OrderLength) => graph.node_len < u32::MAX && order@.len()
                    != graph.node_len,
                Err(ArtifactError::BadShortcut) => graph.node_len < u32::MAX && order@.len()
                    == graph.node_len && !shortcuts_valid(order@, shortcuts@),
            },
    {
        let n = graph.node_len;
        let ghost given = shortcuts@;
        let ghost ranks = order@;
        if n >= u32::MAX as usize {
            return Err(ArtifactError::TooManyNodes);
        }
        if order.len() != n {
            return Err(ArtifactError::OrderLength);
        }
        let mut i: usize = 0;
        while i < shortcuts.len()
            invariant
                n == order@.len(),
                n == graph.node_len,
                n < u32::MAX,
                i <= shortcuts.len(),
                forall|k: int| 0 <= k < i ==> shortcut_valid(order@, #[trigger] shortcuts@[k]),
            decreases shortcuts.len() - i,
        {
            let c = shortcuts[i];
            let s = c.snode_idx.index();
            let e = c.enode_idx.index();
            let m = c.mnode_idx.index();
            if s >= n || e >= n || m >= n || s == e || c.length >= COST_SPAN {
                assert(!shortcut_valid(order@, shortcuts@[i as int]));
                return Err(ArtifactError::BadShortcut);
            }
            if order[m] == u32::MAX || order[m] >= order[s] || order[m] >= order[e] {
                assert(!shortcut_valid(order@, shortcuts@[i as int]));
                return Err(ArtifactError::BadShortcut);
            }
            i += 1;
        }
        let mut ch = Self {
            graph,
            order,
            contractions: Vec::new(),
            all_contractions: shortcuts,
            upward: Vec::new(),
        };
        let mut u: usize = 0;
        while u < n
            invariant
                u <= n,
                ch.graph == graph,
                ch.order@ == order@,
                ch.all_contractions@ == shortcuts@,
                ch.contractions@.len() == u,
                forall|w: int| 0 <= w < u ==> (#[trigger] ch.contractions@[w])@.len() == 0,
            decreases n - u,
        {
            ch.contractions.push(Vec::new());
            u += 1;
        }
        proof {
            assert forall|w: int| 0 <= w < n implies targets_within(
                #[trigger] ch.adj()[w],
                n as int,
            ) by {
                assert(ch.adj()[w] == links_view(ch.contractions@[w]@));
            }
            assert forall|k: int| 0 <= k < ch.shortcuts().len() implies shortcut_within(
                #[trigger] ch.shortcuts()[k],
                n as int,
            ) && shortcut_ok(ch.ranks(), ch.shortcuts()[k]) by {
                assert(shortcut_valid(order@, shortcuts@[k]));
            }
        }
        ch.finish();
        proof {
            if faithful(graph.adj(), given, ranks) {
                lemma_faithful_shuffled(graph.adj(), given, ch.shortcuts(), ranks);
            }
            if decomposed(graph.adj(), given) {
                lemma_decomposed_shuffled(graph.adj(), given, ch.shortcuts());
            }
            lemma_ready_framed(&ch);
            lemma_full_mated(graph.adj(), ch.shortcuts(), ch.ranks());
        }
        Ok(ch)
    }

    /// One step of a search over the links of the hierarchy: the cheapest
    /// queued node that is not settled is settled, where it costs less than
    /// the cost limit, and its links in direction `dir` are followed. `None`
    /// when no such node is left: every queued entry is of a settled node or
    /// at the cost limit or above; what is left in the queue is at the cost
    /// limit or above.
    pub(crate) fn search_step(
        &self,
        search: &mut Search,
        dir: IdxLinkDir,
        Ghost(src): Ghost<int>,
    ) -> (r: Option<crate::dijkstra::Entry>)
        requires
            sound(self.up(), dir, src, old(search)),
        ensures
            final(search).wf(),
            final(search).cost_limit == old(search).cost_limit,
            final(search).heap_limit == old(search).heap_limit,
            final(search).hop_limit == old(search).hop_limit,
            rooted(self.up(), dir, src, final(search)),
            forall|j: u32|
                old(search).records().contains_key(j) ==> #[trigger] final(search).records().contains_key(j),
            forall|j: u32|
                #[trigger] settled(old(search).records(), j) ==> final(search).records()[j]
                    == old(search).records()[j],
            r is None <==> forall|x: crate::dijkstra::Entry| #[trigger]
                old(search).queue().contains(x) ==> settled(old(search).records(), x.key.0)
                    || old(search).cost_limit <= x.cost,
            match r {
                Some(e) => {
                    &&& sound(self.up(), dir, src, final(search))
                    &&& !settled(old(search).records(), e.key.0)
                    &&& old(search).records().contains_key(e.key.0)
                    &&& settled(final(search).records(), e.key.0)
                    &&& final(search).records()[e.key.0].cost == e.cost
                    &&& old(search).records()[e.key.0].cost == e.cost
                    &&& e.cost < old(search).cost_limit
                    &&& done(final(search).records()) == done(old(search).records()).insert(
                        e.key.0,
                    )
                    &&& exact(self.up(), dir, src, old(search)) ==> exact(
                        self.up(),
                        dir,
                        src,
                        final(search),
                    )
                },
                None => {
                    &&& final(search).records() == old(search).records()
                    &&& final(search).queue().subset_of(old(search).queue())
                    &&& forall|x: crate::dijkstra::Entry| #[trigger]
                        final(search).queue().contains(x) ==> old(search).cost_limit <= x.cost
                    &&& exact(self.up(), dir, src, old(search)) && calm(self.up(), dir, src) ==> forall|v: int|
                        !(0 <= v < KEY_SPACE && settled(old(search).records(), v as u32))
                            ==> #[trigger] cheapest(
                            self.up(),
                            dir,
                            src,
                            v,
                            old(search).cost_limit as int,
                        )
                },
            },
    {
        let ghost queue0 = search.queue();
        let ghost recs0 = search.records();
        let ghost limit = search.cost_limit;
        let r = expand(&self.upward, search, dir, None, Ghost(src));
        proof {
            match r {
                Some(e) => {
                    // the node that was settled had an entry in the queue
                    assert(crate::shortest::waits(queue0, recs0[e.key.0].cost, e.key.0));
                    let h = choose|h: u16|
                        queue0.contains(#[trigger] crate::shortest::entry_of(
                            recs0[e.key.0].cost,
                            h,
                            e.key.0,
                        ));
                    let x = crate::shortest::entry_of(recs0[e.key.0].cost, h, e.key.0);
                    assert(queue0.contains(x) && !settled(recs0, x.key.0) && x.cost < limit);
                },
                None => {
                    assert forall|x: crate::dijkstra::Entry| #[trigger]
                        queue0.contains(x) implies settled(recs0, x.key.0) || limit <= x.cost by {
                        if !search.queue().contains(x) {
                            assert(search.queue().count(x) < queue0.count(x));
                        }
                    }
                },
            }
        }
        r
    }

    /// The way from `src` to `dst` that the two searches find, and its cost:
    /// one search climbs from `src` along the arcs, the other from `dst`
    /// against them, both over links that lead to nodes of higher rank only,
    /// until no cheaper meeting is left; the cheapest meeting is unpacked.
    /// `None` when the searches do not meet. In a faithful hierarchy where
    /// neither search turns a step away for the hops it counts (there are at
    /// most `u16::MAX` nodes, or no cheapest way up from either end has that
    /// many links) the cost is that of the cheapest way of the graph, and
    /// `None` says that the graph has no way that costs less than
    /// `COST_SPAN`; no way that costs less than `COST_SPAN` is cheaper than
    /// what is returned; where every shortcut falls into two arcs, the way is one
    /// over links of the graph, and with both it costs what is returned.
    pub fn search(&self, src: IdxNodeKey, dst: IdxNodeKey) -> (r: Option<(Vec<IdxNodeKey>, u32)>)
        requires
            self.ready(),
            src.0 < self.adj().len(),
            dst.0 < self.adj().len(),
        ensures
            match r {
                Some((path, cost)) => cost < u32::MAX && answers(self, src, dst, path@, cost as int) && (
                both_calm(self.up(), src.0 as int, dst.0 as int) ==> no_cheaper_meeting(
                    self.up(),
                    src.0 as int,
                    dst.0 as int,
                    cost as int,
                )),
                None => both_calm(self.up(), src.0 as int, dst.0 as int) ==> no_cheaper_meeting(
                    self.up(),
                    src.0 as int,
                    dst.0 as int,
                    u32::MAX as int,
                ),
            },
            faithful(self.graph().adj(), self.shortcuts(), self.ranks()) ==> match r {
                Some((_, cost)) => reaches(
                    self.graph().adj(),
                    src.0 as int,
                    dst.0 as int,
                    cost as int,
                ) && (both_calm(self.up(), src.0 as int, dst.0 as int) ==> cheapest_under(
                    self.graph().adj(),
                    IdxLinkDir::Forward,
                    src.0 as int,
                    dst.0 as int,
                    cost as int,
                    COST_SPAN as int,
                )),
                None => both_calm(self.up(), src.0 as int, dst.0 as int) ==> cheapest_under(
                    self.graph().adj(),
                    IdxLinkDir::Forward,
                    src.0 as int,
                    dst.0 as int,
                    u32::MAX as int,
                    COST_SPAN as int,
                ),
            },
            decomposed(self.graph().adj(), self.shortcuts()) ==> match r {
                Some((path, _)) => path@.len() >= 1 && path@[0] == src && path@.last() == dst
                    && walks(self.graph().adj(), nodes_of(path@)),
                None => true,
            },
            faithful(self.graph().adj(), self.shortcuts(), self.ranks()) && decomposed(
                self.graph().adj(),
                self.shortcuts(),
            ) && both_calm(self.up(), src.0 as int, dst.0 as int) ==> match r {
                Some((path, cost)) => cost < COST_SPAN ==> leads(
                    self.graph().adj(),
                    IdxLinkDir::Forward,
                    nodes_of(path@),
                    src.0 as int,
                    dst.0 as int,
                    cost as int,
                ),
                None => true,
            },
    {
        proof {
            lemma_adj_of_costs(self.upward@);
            lemma_ready_framed(self);
            lemma_full_sane(self.graph().adj(), self.shortcuts(), self.ranks());
        }
        let (mut path_f, path_b, min_cost) = match meet(&self.upward, src, dst) {
            None => {
                proof {
                    if faithful(self.graph().adj(), self.shortcuts(), self.ranks()) && both_calm(self.up(), src.0 as int, dst.0 as int) {
                        lemma_ready_framed(self);
                        lemma_cheapest_meeting_is_cheapest_way(
                            self.graph().adj(),
                            self.shortcuts(),
                            self.ranks(),
                            src.0 as int,
                            dst.0 as int,
                            u32::MAX as int,
                        );
                    }
                }
                return None;
            },
            Some(found) => found,
        };
        let ghost adj = self.up();
        let ghost up = path_f@;
        let ghost down = path_b@;
        proof {
            let (a, b) = choose|a: int, b: int|
                {
                    &&& #[trigger] leads(
                        adj,
                        IdxLinkDir::Forward,
                        nodes_of(up),
                        src.0 as int,
                        up.last().0 as int,
                        a,
                    )
                    &&& #[trigger] leads(
                        adj,
                        IdxLinkDir::Backward,
                        nodes_of(down),
                        dst.0 as int,
                        up.last().0 as int,
                        b,
                    )
                    &&& min_cost == a + b
                };
            lemma_way_nodes(adj, IdxLinkDir::Forward, nodes_of(up), a);
            lemma_way_nodes(adj, IdxLinkDir::Backward, nodes_of(down), b);
        }
        let mut path_b = reversed(&path_b);
        path_f.pop();
        path_f.append(&mut path_b);
        proof {
            assert(path_f@ =~= up.drop_last() + down.reverse());
            assert forall|i: int| 0 <= i < path_f@.len() implies (#[trigger] path_f@[i]).0
                < self.ranks().len() by {
                if i < up.len() - 1 {
                    assert(path_f@[i] == up[i]);
                    assert(nodes_of(up)[i] == up[i].0);
                } else {
                    let j = i - (up.len() - 1);
                    assert(path_f@[i] == down.reverse()[j]);
                    assert(down.reverse()[j] == down[down.len() - 1 - j]);
                    assert(nodes_of(down)[down.len() - 1 - j] == down[down.len() - 1 - j].0);
                }
            }
        }
        let ghost joined = path_f@;
        let decoded = self.unpack(path_f);
        proof {
            assert(joined == up.drop_last() + down.reverse());
            assert(meeting(self.up(), src, dst, up, down, min_cost as int) && decoded@
                == unfolded(self.shortcuts(), self.ranks(), up.drop_last() + down.reverse()));
            assert(answers(self, src, dst, decoded@, min_cost as int));
            if faithful(self.graph().adj(), self.shortcuts(), self.ranks()) {
                lemma_answer_is_real(self, src, dst, decoded@, min_cost as int);
                if both_calm(self.up(), src.0 as int, dst.0 as int) {
                    lemma_query_cost_is_cheapest(self, src, dst, decoded@, min_cost as int);
                }
            }
            if decomposed(self.graph().adj(), self.shortcuts()) {
                lemma_answer_walks(self, src, dst, decoded@, min_cost as int);
                if faithful(self.graph().adj(), self.shortcuts(), self.ranks()) && both_calm(
                    self.up(),
                    src.0 as int,
                    dst.0 as int,
                ) && min_cost < COST_SPAN {
                    lemma_answer_costs(self, src, dst, decoded@, min_cost as int);
                }
            }
        }
        Some((decoded, min_cost))
    }
}

/// Whether the shortcuts are sorted by the node they start at.
pub fn is_sorted_by_start(list: &Vec<CHContraction>) -> (b: bool)
    ensures
        b == sorted_by_start(list@),
{
    if list.len() < 2 {
        return true;
    }
    let mut i: usize = 1;
    while i < list.len()
        invariant
            1 <= i <= list.len(),
            forall|a: int, b: int|
                0 <= a <= b < i ==> (#[trigger] list@[a]).snode_idx.0 <= (
                #[trigger] list@[b]).snode_idx.0,
        decreases list.len() - i,
    {
        if list[i - 1].snode_idx.0 > list[i].snode_idx.0 {
            return false;
        }
        proof {
            assert forall|a: int, b: int| 0 <= a <= b < i + 1 implies (
            #[trigger] list@[a]).snode_idx.0 <= (#[trigger] list@[b]).snode_idx.0 by {
                if b == i && a < i {
                    assert(list@[a].snode_idx.0 <= list@[i - 1].snode_idx.0);
                }
            }
        }
        i += 1;
    }
    true
}

} // verus!
