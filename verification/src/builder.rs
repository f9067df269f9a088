//! Building a hierarchy: nodes are contracted one after the other, cheapest
//! first.

use crate::adjacency::{all_grouped, grouped, in_range, links_view, paired, targets_within};
use crate::ceiling::{
    costs_within, doubles, lemma_cap_doubles, lemma_costs_rise, lemma_lengths_grow,
    lemma_row_roomy, lemma_top_cost, lemma_working_costs, lengths_within, row_within, top_cost,
};
use crate::ch::CH;
use crate::contraction::{
    lemma_swept, lemma_taken_out, lemma_with_arc, paired_but, plain, plain_list, swept, with_arc,
};
use crate::course::{
    grounded, lemma_contraction_grounded, lemma_contraction_on_course, lemma_course_begins,
    lemma_course_ends, lemma_wf_framed, on_course,
};
use crate::faithful::{all_through, faithful, real_shortcuts};
use crate::heap::{MinHeap, Ranked};
use crate::hierarchy::{
    isolated, lemma_neighbour_has_links, lemma_rank_assigned, lemma_shortcuts_stay_ok,
    lemma_target_has_links, ranked, shortcut_ok, shortcuts_ok, steady,
};
use crate::narrow::{
    all_two_ended, ends_in, grown, lemma_grown_step, lemma_narrow_contracted, lemma_narrow_total,
    narrow, two_ended,
};
use crate::network::{IdxLink, IdxLinkDir, IdxNodeKey, LinkView, COST_SPAN};
use crate::paths::step;
use crate::retrace::decomposed;
use crate::scoring::{
    dir_count, from_pair, lean, necessary, score, sifted, via_shape, CHEntry,
};
use crate::shortcut::CHContraction;
use crate::upkeep::{
    held, lemma_arc_held, lemma_arc_undercut, lemma_set_out_held, lemma_set_out_undercut,
    lemma_step_costs, lemma_sweep_held, lemma_sweep_undercut, roomy, undercut,
};
use crate::upward::full_adj;
use rayon::prelude::{IntoParallelIterator, ParallelIterator};
use vstd::multiset::*;
use vstd::prelude::*;

verus! {

/// The least number of queue entries handled between two rebuilds of the
/// queue.
pub const HEAP_MIN_INTERVAL: usize = 20000;

/// A node whose score has come down by more than this is queued again.
pub const SCORE_TOLERANCE: i64 = 2;

/// Node `u` has an entry in the queue.
pub open spec fn queued(heap: Multiset<CHEntry>, u: int) -> bool {
    exists|e: CHEntry| #[trigger] heap.contains(e) && e.key.0 == u
}

/// Every node that has links has an entry in the queue.
pub open spec fn covered(adj: Seq<Seq<LinkView>>, heap: Multiset<CHEntry>) -> bool {
    forall|u: int| 0 <= u < adj.len() && adj[u].len() > 0 ==> #[trigger] queued(heap, u)
}

/// The arc is one of the array: it joins two different nodes that have
/// links, at a cost that fits a link.
pub open spec fn kept_ok(adj: Seq<Seq<LinkView>>, arc: (IdxNodeKey, IdxNodeKey, u32)) -> bool {
    &&& arc.0.0 < adj.len()
    &&& arc.1.0 < adj.len()
    &&& arc.0 != arc.1
    &&& arc.2 < COST_SPAN
    &&& adj[arc.0.0 as int].len() > 0
    &&& adj[arc.1.0 as int].len() > 0
    &&& step(adj, IdxLinkDir::Forward, arc.0.0 as int, arc.1.0 as int, arc.2 as int)
}

/// The score of the entry is that of its node for some shortcuts that the
/// contraction of the node needs: its links less these shortcuts less its
/// contracted neighbours.
pub open spec fn scored(adj: Seq<Seq<LinkView>>, deleted: Seq<u16>, e: CHEntry) -> bool {
    exists|out: Seq<CHContraction>| #[trigger]
        necessary(adj, e.key, adj[e.key.0 as int], out) && e.score == crate::scoring::score_of(
            adj[e.key.0 as int].len() as int,
            out.len() as int,
            deleted[e.key.0 as int] as int,
        ) && out.len() <= dir_count(adj[e.key.0 as int], IdxLinkDir::Backward) * dir_count(
            adj[e.key.0 as int],
            IdxLinkDir::Forward,
        )
}

/// The most nodes of a graph for which the build is known to handle fewer
/// queue entries than it takes to build the queue anew.
pub const QUIET_NODES: usize = 20;

/// The graph is so small and plain that the build handles fewer queue
/// entries than it takes to build the queue anew: it has at most
/// `QUIET_NODES` nodes, and none has two links to the same node in the same
/// direction.
pub open spec fn quiet(base: Seq<Seq<LinkView>>) -> bool {
    base.len() <= QUIET_NODES && plain(base)
}

/// The graph is quiet and none of its links costs more than `top_cost`
/// allows for its number of nodes (1023 for 20 nodes, twice as much for
/// each node less): each contraction at most doubles what a working link
/// costs, so the costs of any two working links fit a link together.
pub open spec fn modest(base: Seq<Seq<LinkView>>) -> bool {
    quiet(base) && costs_within(base, top_cost(base.len()))
}

/// In a plain array of at most `QUIET_NODES` nodes, an entry scored for a
/// node of which at most 800 neighbours are counted as contracted has a
/// score between -2400 and 40.
pub proof fn lemma_scored_range(adj: Seq<Seq<LinkView>>, deleted: Seq<u16>, e: CHEntry)
    requires
        scored(adj, deleted, e),
        plain(adj),
        in_range(adj),
        adj.len() <= QUIET_NODES,
        e.key.0 < adj.len(),
        deleted[e.key.0 as int] <= 800,
    ensures
        -2400 <= e.score <= 40,
{
    let row = adj[e.key.0 as int];
    let out = choose|out: Seq<CHContraction>| #[trigger]
        necessary(adj, e.key, row, out) && e.score == crate::scoring::score_of(
            row.len() as int,
            out.len() as int,
            deleted[e.key.0 as int] as int,
        ) && out.len() <= dir_count(row, IdxLinkDir::Backward) * dir_count(row, IdxLinkDir::Forward);
    lemma_row_range(row, adj.len() as int, out.len() as int, deleted[e.key.0 as int] as int);
}

/// The score of a node whose plain row leads to the first `n` nodes, at
/// most `QUIET_NODES`, for a number of shortcuts that is no more than there
/// are pairs of links.
pub proof fn lemma_row_range(row: Seq<LinkView>, n: int, shortcuts: int, deleted: int)
    requires
        plain_list(row),
        targets_within(row, n),
        0 <= n <= QUIET_NODES,
        0 <= shortcuts <= dir_count(row, IdxLinkDir::Backward) * dir_count(row, IdxLinkDir::Forward),
        0 <= deleted <= 800,
    ensures
        row.len() <= 40,
        -2400 <= crate::scoring::score_of(row.len() as int, shortcuts, deleted) <= 40,
{
    crate::contraction::lemma_plain_len(row, n);
    crate::scoring::lemma_dir_count_len(row, IdxLinkDir::Backward);
    crate::scoring::lemma_dir_count_len(row, IdxLinkDir::Forward);
    let b = dir_count(row, IdxLinkDir::Backward) as int;
    let f = dir_count(row, IdxLinkDir::Forward) as int;
    assert(b * f <= 1600) by (nonlinear_arith)
        requires
            0 <= b <= 40,
            0 <= f <= 40,
    ;
    crate::scoring::lemma_score_range(row.len() as int, shortcuts, deleted);
}

/// `rayon`'s parallel `filter`, `map` and `collect` over the node indices:
/// for each node that `has_links`, in some order, what `entry_at` returns.
/// So each entry names a node that has links and has the score that
/// `entry_at` ensures, each node that has links has its entry, and there
/// are no more entries than node indices.
#[verifier::external_body]
fn par_heap_entries(ch: &CH, deleted_count: &Vec<u16>, hop_limit: u16) -> (entries: Vec<CHEntry>)
    requires
        ch.wf(),
        paired(ch.adj()),
        deleted_count@.len() == ch.adj().len(),
        hop_limit >= 1,
    ensures
        forall|i: int|
            0 <= i < entries@.len() ==> (#[trigger] entries@[i]).key.0 < ch.adj().len()
                && ch.adj()[entries@[i].key.0 as int].len() > 0,
        forall|i: int| 0 <= i < entries@.len() ==> scored(ch.adj(), deleted_count@, #[trigger] entries@[i]),
        entries@.len() <= ch.adj().len(),
        forall|u: int|
            0 <= u < ch.adj().len() && (#[trigger] ch.adj()[u]).len() > 0 ==> exists|i: int|
                0 <= i < entries@.len() && (#[trigger] entries@[i]).key.0 == u,
{
    (0..ch.graph.node_len).into_par_iter().filter(|idx| ch.has_links(*idx)).map(
        |idx| ch.entry_at(idx, deleted_count, hop_limit),
    ).collect()
}

/// `rayon`'s parallel `filter`, `flat_map` and `collect` over the node
/// indices: for each node that `has_links`, what `kept_arcs` returns, all in
/// one list. What `kept_arcs` ensures is repeated here: each arc of the list
/// is an arc of the working links between two different nodes, and one that
/// `kept_arcs` keeps at a node that has links; and what `kept_arcs` keeps at
/// each node that has links is in the list.
#[verifier::external_body]
fn par_kept_arcs(ch: &CH, hop_limit: u16) -> (arcs: Vec<(IdxNodeKey, IdxNodeKey, u32)>)
    requires
        ch.wf(),
        paired(ch.adj()),
        hop_limit >= 1,
    ensures
        forall|i: int| 0 <= i < arcs@.len() ==> kept_ok(ch.adj(), #[trigger] arcs@[i]),
        forall|i: int| 0 <= i < arcs@.len() ==> sourced(ch.adj(), #[trigger] arcs@[i]),
        all_kept(ch.adj(), arcs@),
{
    (0..ch.graph.node_len).into_par_iter().filter(|idx| ch.has_links(*idx)).flat_map(
        |idx| ch.kept_arcs(idx, hop_limit),
    ).collect()
}

/// What a build met on its way.
#[derive(Clone, Copy, Debug)]
pub struct BuildReport {
    /// How often the queue of nodes was built anew.
    pub rebuilds: usize,
    /// How often the working links were made anew from the arcs worth
    /// keeping, after the hop limit rose.
    pub pruned: usize,
    /// How many nodes were contracted whose links cost so much that a
    /// shortcut over two of them might not fit a link: ways over such a pair
    /// cost `COST_SPAN` or more and get no shortcut.
    pub tight: usize,
}

impl BuildReport {
    /// The build neither dropped working links nor met a node whose links
    /// cost too much.
    pub open spec fn clean(&self) -> bool {
        self.pruned == 0 && self.tight == 0
    }

    /// Whether the build was clean.
    pub fn is_clean(&self) -> (b: bool)
        ensures
            b == self.clean(),
    {
        self.pruned == 0 && self.tight == 0
    }
}

/// Whether the costs of any `Backward` link and any `Forward` link of the
/// list fit a link together.
pub fn pairs_fit(neighbors: &Vec<IdxLink>) -> (ok: bool)
    ensures
        ok == roomy(links_view(neighbors@)),
{
    let ghost nb = links_view(neighbors@);
    let mut most_back: u32 = 0;
    let mut most_forth: u32 = 0;
    let mut any_back = false;
    let mut any_forth = false;
    let ghost mut at_back: int = 0;
    let ghost mut at_forth: int = 0;
    let mut i: usize = 0;
    while i < neighbors.len()
        invariant
            i <= neighbors.len(),
            nb == links_view(neighbors@),
            most_back < COST_SPAN,
            most_forth < COST_SPAN,
            any_back ==> 0 <= at_back < i && nb[at_back].dir == IdxLinkDir::Backward
                && nb[at_back].cost == most_back,
            any_forth ==> 0 <= at_forth < i && nb[at_forth].dir == IdxLinkDir::Forward
                && nb[at_forth].cost == most_forth,
            forall|b: int|
                0 <= b < i && (#[trigger] nb[b]).dir == IdxLinkDir::Backward ==> any_back
                    && nb[b].cost <= most_back,
            forall|f: int|
                0 <= f < i && (#[trigger] nb[f]).dir == IdxLinkDir::Forward ==> any_forth
                    && nb[f].cost <= most_forth,
        decreases neighbors.len() - i,
    {
        let link = neighbors[i];
        assert(link@ == nb[i as int]);
        let cost = link.cost();
        match link.dir() {
            IdxLinkDir::Backward => {
                if !any_back || cost > most_back {
                    most_back = cost;
                    proof {
                        at_back = i as int;
                    }
                }
                any_back = true;
            },
            IdxLinkDir::Forward => {
                if !any_forth || cost > most_forth {
                    most_forth = cost;
                    proof {
                        at_forth = i as int;
                    }
                }
                any_forth = true;
            },
        }
        i += 1;
    }
    !any_back || !any_forth || most_back + most_forth < COST_SPAN
}

/// An array in range stays in range where a list of links in range is put
/// in place of one of its lists.
pub proof fn lemma_put_back_in_range(adj: Seq<Seq<LinkView>>, key: int, nb: Seq<LinkView>)
    requires
        in_range(adj),
        0 <= key < adj.len(),
        targets_within(nb, adj.len() as int),
    ensures
        in_range(adj.update(key, nb)),
{
    let work = adj.update(key, nb);
    assert forall|u: int| 0 <= u < work.len() implies targets_within(
        #[trigger] work[u],
        work.len() as int,
    ) by {
        if u != key {
            assert(work[u] == adj[u]);
            assert(targets_within(adj[u], adj.len() as int));
        }
    }
}

/// The link ends where the shortcut ends, or starts where it starts.
pub open spec fn ends_at(link: LinkView, c: CHContraction) -> bool {
    ||| link.dir == IdxLinkDir::Forward && link.to == c.enode_idx.0
    ||| link.dir == IdxLinkDir::Backward && link.to == c.snode_idx.0
}

/// The link is at an end of one of the shortcuts.
pub open spec fn wanted(link: LinkView, out: Seq<CHContraction>) -> bool {
    exists|k: int| 0 <= k < out.len() && ends_at(link, #[trigger] out[k])
}

/// The arc that a link of node `key` stands for, with its cost.
pub open spec fn arc_of(key: IdxNodeKey, link: LinkView) -> (IdxNodeKey, IdxNodeKey, u32) {
    if link.dir == IdxLinkDir::Forward {
        (key, IdxNodeKey(link.to as u32), link.cost as u32)
    } else {
        (IdxNodeKey(link.to as u32), key, link.cost as u32)
    }
}

/// The arcs of the links of `key` that are at an end of one of the
/// shortcuts, in the order of the links.
pub open spec fn kept_of(nb: Seq<LinkView>, key: IdxNodeKey, out: Seq<CHContraction>) -> Seq<
    (IdxNodeKey, IdxNodeKey, u32),
>
    decreases nb.len(),
{
    if nb.len() == 0 {
        Seq::empty()
    } else {
        let rest = kept_of(nb.drop_last(), key, out);
        if wanted(nb.last(), out) {
            rest.push(arc_of(key, nb.last()))
        } else {
            rest
        }
    }
}

/// An array of `n` nodes without links.
pub open spec fn bare(n: int) -> Seq<Seq<LinkView>> {
    Seq::new(n as nat, |u: int| Seq::<LinkView>::empty())
}

/// The array after the arcs were merged in, one after the other, each at
/// both its ends.
pub open spec fn laid(adj: Seq<Seq<LinkView>>, arcs: Seq<(IdxNodeKey, IdxNodeKey, u32)>) -> Seq<
    Seq<LinkView>,
>
    decreases arcs.len(),
{
    if arcs.len() == 0 {
        adj
    } else {
        with_arc(
            laid(adj, arcs.drop_last()),
            arcs.last().0.0 as int,
            arcs.last().1.0 as int,
            arcs.last().2 as int,
        )
    }
}

/// The arc is the arc of a link of node `u` that is at an end of one of the
/// shortcuts that the contraction of `u` needs.
pub open spec fn kept_at(
    adj: Seq<Seq<LinkView>>,
    u: int,
    arc: (IdxNodeKey, IdxNodeKey, u32),
) -> bool {
    exists|out: Seq<CHContraction>| #[trigger]
        necessary(adj, IdxNodeKey(u as u32), adj[u], out) && kept_of(
            adj[u],
            IdxNodeKey(u as u32),
            out,
        ).contains(arc)
}

/// The arc is kept at one of the nodes that have links.
pub open spec fn sourced(adj: Seq<Seq<LinkView>>, arc: (IdxNodeKey, IdxNodeKey, u32)) -> bool {
    exists|u: int| 0 <= u < adj.len() && adj[u].len() > 0 && #[trigger] kept_at(adj, u, arc)
}

/// For each node that has links, the list holds the arcs of its links that
/// are at an end of one of the shortcuts that its contraction needs.
pub open spec fn all_kept(adj: Seq<Seq<LinkView>>, arcs: Seq<(IdxNodeKey, IdxNodeKey, u32)>) -> bool {
    forall|u: int|
        0 <= u < adj.len() && (#[trigger] adj[u]).len() > 0 ==> exists|out: Seq<CHContraction>| #[trigger]
            necessary(adj, IdxNodeKey(u as u32), adj[u], out) && forall|k: int|
                0 <= k < kept_of(adj[u], IdxNodeKey(u as u32), out).len() ==> arcs.contains(
                    #[trigger] kept_of(adj[u], IdxNodeKey(u as u32), out)[k],
                )
}

/// The working links `next` are made of the arcs of `adj` that were worth
/// keeping, merged into an array without links: the arcs that are kept at
/// the nodes that have links, all of them, in some order.
pub open spec fn rebuilt_from(adj: Seq<Seq<LinkView>>, next: Seq<Seq<LinkView>>) -> bool {
    exists|arcs: Seq<(IdxNodeKey, IdxNodeKey, u32)>|
        {
            &&& forall|i: int| 0 <= i < arcs.len() ==> kept_ok(adj, #[trigger] arcs[i])
            &&& forall|i: int| 0 <= i < arcs.len() ==> sourced(adj, #[trigger] arcs[i])
            &&& all_kept(adj, arcs)
            &&& next == #[trigger] laid(bare(adj.len() as int), arcs)
        }
}

/// Whether the link is at an end of one of the shortcuts.
pub fn is_wanted(link: IdxLink, shortcuts: &Vec<CHContraction>) -> (b: bool)
    ensures
        b == wanted(link@, shortcuts@),
{
    let mut j: usize = 0;
    while j < shortcuts.len()
        invariant
            j <= shortcuts.len(),
            forall|k: int| 0 <= k < j ==> !ends_at(link@, #[trigger] shortcuts@[k]),
        decreases shortcuts.len() - j,
    {
        let c = shortcuts[j];
        if link.enode_idx().0 == c.enode_idx.0 && link.dir() == IdxLinkDir::Forward {
            assert(ends_at(link@, shortcuts@[j as int]));
            return true;
        }
        if link.enode_idx().0 == c.snode_idx.0 && link.dir() == IdxLinkDir::Backward {
            assert(ends_at(link@, shortcuts@[j as int]));
            return true;
        }
        j += 1;
    }
    false
}

impl<'a> CH<'a> {
    /// Whether the node at position `idx` has links.
    pub fn has_links(&self, idx: usize) -> (b: bool)
        requires
            idx < self.adj().len(),
        ensures
            b == (self.adj()[idx as int].len() > 0),
    {
        !self.contractions[idx].is_empty()
    }

    /// The queue entry of the node at position `idx`.
    pub fn entry_at(&self, idx: usize, deleted_count: &Vec<u16>, hop_limit: u16) -> (e: CHEntry)
        requires
            self.wf(),
            paired(self.adj()),
            idx < self.adj().len(),
            deleted_count@.len() == self.adj().len(),
            hop_limit >= 1,
        ensures
            e.key.0 == idx,
            scored(self.adj(), deleted_count@, e),
    {
        let key = IdxNodeKey::new(idx);
        self.heap_entry(key, deleted_count.as_slice(), hop_limit)
    }

    /// The arcs at the node at position `idx` that are worth keeping: for
    /// each of its links that ends where a shortcut through the node would
    /// end, or starts where one would start, the arc of the link, in the
    /// order of the links.
    pub fn kept_arcs(&self, idx: usize, hop_limit: u16) -> (arcs: Vec<(IdxNodeKey, IdxNodeKey, u32)>)
        requires
            self.wf(),
            paired(self.adj()),
            idx < self.adj().len(),
            hop_limit >= 1,
        ensures
            forall|i: int| 0 <= i < arcs@.len() ==> kept_ok(self.adj(), #[trigger] arcs@[i]),
            exists|out: Seq<CHContraction>| #[trigger]
                necessary(self.adj(), IdxNodeKey(idx as u32), self.adj()[idx as int], out) && arcs@
                    == kept_of(self.adj()[idx as int], IdxNodeKey(idx as u32), out),
    {
        let key = IdxNodeKey::new(idx);
        let ghost adj = self.adj();
        let ghost nb = adj[idx as int];
        let neighbors = &self.contractions[idx];
        proof {
            assert(targets_within(nb, adj.len() as int));
        }
        let contractions = self.dijkstra_contract(key, neighbors.as_slice(), hop_limit);
        let ghost out = contractions@;
        let mut links: Vec<(IdxNodeKey, IdxNodeKey, u32)> = Vec::new();
        let mut i: usize = 0;
        assert(nb.take(0) =~= Seq::<LinkView>::empty());
        while i < neighbors.len()
            invariant
                self.wf(),
                adj == self.adj(),
                paired(adj),
                idx < adj.len(),
                key.0 == idx,
                nb == adj[idx as int],
                nb == links_view(neighbors@),
                out == contractions@,
                i <= neighbors.len(),
                forall|k: int| 0 <= k < out.len() ==> via_shape(nb, key, #[trigger] out[k]),
                forall|k: int| 0 <= k < links@.len() ==> kept_ok(adj, #[trigger] links@[k]),
                links@ == kept_of(nb.take(i as int), key, out),
            decreases neighbors.len() - i,
        {
            let n = neighbors[i];
            assert(n@ == nb[i as int]);
            proof {
                assert(nb.take(i + 1).drop_last() =~= nb.take(i as int));
                assert(nb.take(i + 1).last() == nb[i as int]);
            }
            if is_wanted(n, &contractions) {
                let ghost before = links@;
                proof {
                    assert(targets_within(nb, adj.len() as int));
                    lemma_target_has_links(adj, idx as int, i as int);
                    let link = nb[i as int];
                    assert(nb[i as int] == (LinkView {
                        to: link.to,
                        cost: link.cost,
                        dir: link.dir,
                    }));
                    assert(step(adj, link.dir, idx as int, link.to, link.cost));
                    if link.dir == IdxLinkDir::Backward {
                        lemma_step_costs(adj, IdxLinkDir::Backward, idx as int, link.to, link.cost);
                        assert(crate::adjacency::costs_to(
                            adj[link.to],
                            idx as int,
                            IdxLinkDir::Forward,
                        ) == crate::adjacency::costs_to(
                            adj[idx as int],
                            link.to,
                            IdxLinkDir::Backward,
                        ));
                        lemma_step_costs(adj, IdxLinkDir::Forward, link.to, idx as int, link.cost);
                    }
                    let k = choose|k: int| 0 <= k < out.len() && ends_at(n@, #[trigger] out[k]);
                    assert(via_shape(nb, key, out[k]));
                }
                match n.dir() {
                    IdxLinkDir::Forward => {
                        links.push((key, n.enode_idx(), n.cost()));
                    },
                    IdxLinkDir::Backward => {
                        links.push((n.enode_idx(), key, n.cost()));
                    },
                }
                proof {
                    assert(links@ == before.push(arc_of(key, n@)));
                    assert forall|k: int| 0 <= k < links@.len() implies kept_ok(
                        adj,
                        #[trigger] links@[k],
                    ) by {
                        if k < before.len() {
                            assert(links@[k] == before[k]);
                        }
                    }
                }
            }
            i += 1;
        }
        proof {
            assert(nb.take(neighbors.len() as int) =~= nb);
            assert(key == IdxNodeKey(idx as u32));
            assert(necessary(adj, key, nb, out));
        }
        links
    }

    /// The queue of all the nodes that have links.
    pub(crate) fn build_heap(&self, deleted_count: &Vec<u16>, hop_limit: u16) -> (heap: MinHeap<
        CHEntry,
    >)
        requires
            self.wf(),
            paired(self.adj()),
            deleted_count@.len() == self.adj().len(),
            hop_limit >= 1,
        ensures
            heap.wf(),
            covered(self.adj(), heap@),
            forall|e: CHEntry|
                #[trigger] heap@.contains(e) ==> e.key.0 < self.adj().len() && self.adj()[e.key.0 as int].len()
                    > 0 && scored(self.adj(), deleted_count@, e),
            heap@.len() <= self.adj().len(),
    {
        let entries = par_heap_entries(self, deleted_count, hop_limit);
        let mut heap: MinHeap<CHEntry> = MinHeap::new();
        let mut i: usize = 0;
        let ghost adj = self.adj();
        while i < entries.len()
            invariant
                i <= entries.len(),
                heap.wf(),
                forall|e: CHEntry|
                    #[trigger] heap@.contains(e) ==> e.key.0 < adj.len() && adj[e.key.0 as int].len() > 0
                        && scored(adj, deleted_count@, e),
                forall|k: int| 0 <= k < i ==> heap@.contains(#[trigger] entries@[k]),
                heap@.len() == i,
                entries@.len() <= adj.len(),
                forall|k: int|
                    0 <= k < entries@.len() ==> (#[trigger] entries@[k]).key.0 < adj.len()
                        && adj[entries@[k].key.0 as int].len() > 0 && scored(
                        adj,
                        deleted_count@,
                        entries@[k],
                    ),
            decreases entries.len() - i,
        {
            let ghost before = heap@;
            heap.push(entries[i]);
            proof {
                assert forall|e: CHEntry| #[trigger] heap@.contains(e) implies e.key.0
                    < adj.len() && adj[e.key.0 as int].len() > 0 && scored(adj, deleted_count@, e) by {
                    if e != entries@[i as int] {
                        assert(before.contains(e));
                    }
                }
                assert forall|k: int| 0 <= k < i + 1 implies heap@.contains(
                    #[trigger] entries@[k],
                ) by {
                    if k < i {
                        assert(before.contains(entries@[k]));
                    }
                }
            }
            i += 1;
        }
        proof {
            assert forall|u: int| 0 <= u < adj.len() && adj[u].len() > 0 implies #[trigger] queued(
                heap@,
                u,
            ) by {
                let k = choose|k: int| 0 <= k < entries@.len() && (#[trigger] entries@[k]).key.0 == u;
                assert(heap@.contains(entries@[k]));
            }
        }
        heap
    }

    /// Merges the arcs of the shortcuts `found` through node `key`, whose
    /// links `nb` were taken out of the working adjacency, in at both their
    /// ends, and lists the shortcuts.
    fn merge_found(
        &mut self,
        key: IdxNodeKey,
        found: &Vec<CHContraction>,
        Ghost(nb): Ghost<Seq<LinkView>>,
    )
        requires
            old(self).wf(),
            all_grouped(old(self).adj()),
            isolated(old(self).adj(), old(self).ranks()),
            shortcuts_ok(old(self).ranks(), old(self).shortcuts()),
            key.0 < old(self).adj().len(),
            old(self).ranks()[key.0 as int] != u32::MAX,
            paired_but(old(self).adj(), key.0 as int, nb),
            targets_within(nb, old(self).adj().len() as int),
            forall|k: int| 0 <= k < found@.len() ==> via_shape(nb, key, #[trigger] found@[k]),
        ensures
            final(self).wf(),
            final(self).graph() == old(self).graph(),
            final(self).ranks() == old(self).ranks(),
            final(self).shortcuts() == old(self).shortcuts() + found@,
            final(self).adj().len() == old(self).adj().len(),
            all_grouped(final(self).adj()),
            paired_but(final(self).adj(), key.0 as int, nb),
            isolated(final(self).adj(), final(self).ranks()),
            shortcuts_ok(final(self).ranks(), final(self).shortcuts()),
            forall|u: int|
                0 <= u < old(self).adj().len() && (#[trigger] final(self).adj()[u]).len() > 0
                    ==> old(self).adj()[u].len() > 0,
            held(
                full_adj(old(self).graph().adj(), old(self).shortcuts() + found@),
                old(self).adj(),
                key.0 as int,
            ) ==> held(
                full_adj(old(self).graph().adj(), old(self).shortcuts() + found@),
                final(self).adj(),
                key.0 as int,
            ),
            undercut(
                full_adj(old(self).graph().adj(), old(self).shortcuts()),
                old(self).adj(),
                old(self).ranks(),
                key.0 as int,
            ) ==> undercut(
                full_adj(old(self).graph().adj(), old(self).shortcuts() + found@),
                final(self).adj(),
                old(self).ranks(),
                key.0 as int,
            ),
            plain(old(self).adj()) ==> plain(final(self).adj()),
            grown(old(self).adj(), found@, final(self).adj()),
    {
        let ghost tidy = plain(self.adj());
        let ghost adj0 = self.adj();
        let ghost ranks = self.ranks();
        let ghost list0 = self.shortcuts();
        let ghost n = adj0.len() as int;
        let ghost k0 = key.0 as int;
        let ghost base = self.graph().adj();
        let ghost all = list0 + found@;
        let ghost firm = held(full_adj(base, all), adj0, k0);
        let ghost sure = undercut(full_adj(base, list0), adj0, ranks, k0);
        assert(list0 + found@.take(0) =~= list0);
        proof {
            assert forall|u: int, k: int| 0 <= u < adj0.len() && 0 <= k < adj0[u].len() implies crate::narrow::leads_to(
                adj0[u],
                (#[trigger] adj0[u][k]).to,
            ) by {}
        }
        let mut i: usize = 0;
        while i < found.len()
            invariant
                self.wf(),
                self.graph() == old(self).graph(),
                self.ranks() == ranks,
                ranks.len() == n,
                n == adj0.len(),
                k0 == key.0,
                0 <= k0 < n,
                ranks[k0] != u32::MAX,
                targets_within(nb, n),
                all_grouped(self.adj()),
                paired_but(self.adj(), k0, nb),
                isolated(self.adj(), ranks),
                self.adj().len() == n,
                i <= found.len(),
                self.shortcuts() == list0 + found@.take(i as int),
                shortcuts_ok(ranks, self.shortcuts()),
                forall|k: int| 0 <= k < found@.len() ==> via_shape(nb, key, #[trigger] found@[k]),
                forall|u: int|
                    0 <= u < n && (#[trigger] self.adj()[u]).len() > 0 ==> adj0[u].len() > 0,
                base == self.graph().adj(),
                base.len() == n,
                all == list0 + found@,
                firm ==> held(full_adj(base, all), self.adj(), k0),
                tidy ==> plain(self.adj()),
                grown(adj0, found@.take(i as int), self.adj()),
                sure ==> undercut(
                    full_adj(base, list0 + found@.take(i as int)),
                    self.adj(),
                    ranks,
                    k0,
                ),
            decreases found.len() - i,
        {
            let c = found[i];
            let ghost cur = self.adj();
            let ghost s = c.snode_idx.0 as int;
            let ghost e = c.enode_idx.0 as int;
            proof {
                assert(via_shape(nb, key, c));
                let (b, f) = choose|b: int, f: int| #[trigger] from_pair(nb, c, b, f);
                assert(0 <= nb[b].to < n && 0 <= nb[f].to < n);
                lemma_neighbour_has_links(cur, k0, nb, b);
                lemma_neighbour_has_links(cur, k0, nb, f);
                assert(ranks[s] == u32::MAX);
                assert(ranks[e] == u32::MAX);
                assert(shortcut_ok(ranks, c));
                lemma_with_arc(cur, k0, nb, s, e, c.length as int);
                lemma_grown_step(adj0, found@, i as int, cur);
                if tidy {
                    crate::contraction::lemma_with_arc_plain(cur, s, e, c.length as int);
                }
                if firm {
                    assert(all[list0.len() + i] == c);
                    assert(crate::scoring::spans(all[list0.len() + i], s, e, c.length as int));
                    crate::arcs::lemma_full_row(base[s], all, s, e, c.length as int, IdxLinkDir::Forward);
                    lemma_arc_held(full_adj(base, all), cur, s, e, c.length as int, k0);
                }
                if sure {
                    lemma_arc_undercut(base, list0 + found@.take(i as int), c, cur, ranks, k0);
                    assert((list0 + found@.take(i as int)).push(c) =~= list0 + found@.take(i + 1));
                }
            }
            let ghost before = self.shortcuts();
            self.add_contraction(c);
            proof {
                assert(found@.take(i + 1) =~= found@.take(i as int).push(c));
                assert(self.shortcuts() =~= list0 + found@.take(i + 1));
                assert forall|k: int| 0 <= k < self.shortcuts().len() implies shortcut_ok(
                    ranks,
                    #[trigger] self.shortcuts()[k],
                ) by {
                    if k < before.len() {
                        assert(self.shortcuts()[k] == before[k]);
                    }
                }
                assert forall|u: int| 0 <= u < n && ranks[u] != u32::MAX implies (
                #[trigger] self.adj()[u]).len() == 0 by {
                    assert(u != s && u != e);
                    assert(self.adj()[u] == cur[u]);
                }
                assert forall|u: int| 0 <= u < n && (#[trigger] self.adj()[u]).len()
                    > 0 implies adj0[u].len() > 0 by {
                    if u != s && u != e {
                        assert(self.adj()[u] == cur[u]);
                    }
                    assert(cur[u].len() > 0);
                }
            }
            i += 1;
        }
        proof {
            assert(found@.take(found.len() as int) =~= found@);
        }
    }

    /// Contracts node `key`, whose links `neighbors` were taken out of the
    /// working adjacency, as number `rank`: the shortcuts `found` are merged
    /// in and listed, and the links back to `key` are swept out.
    pub(crate) fn accept(
        &mut self,
        key: IdxNodeKey,
        neighbors: &Vec<IdxLink>,
        found: &Vec<CHContraction>,
        rank: u32,
    )
        requires
            old(self).wf(),
            all_grouped(old(self).adj()),
            isolated(old(self).adj(), old(self).ranks()),
            shortcuts_ok(old(self).ranks(), old(self).shortcuts()),
            key.0 < old(self).adj().len(),
            old(self).ranks()[key.0 as int] == u32::MAX,
            1 <= rank < u32::MAX,
            ranked(old(self).ranks(), rank - 1),
            paired_but(old(self).adj(), key.0 as int, links_view(neighbors@)),
            targets_within(links_view(neighbors@), old(self).adj().len() as int),
            forall|k: int|
                0 <= k < found@.len() ==> via_shape(links_view(neighbors@), key, #[trigger] found@[k]),
        ensures
            steady(final(self), rank as int),
            final(self).graph() == old(self).graph(),
            final(self).ranks() == old(self).ranks().update(key.0 as int, rank),
            final(self).shortcuts() == old(self).shortcuts() + found@,
            final(self).adj()[key.0 as int].len() == 0,
            forall|u: int|
                0 <= u < old(self).adj().len() && (#[trigger] final(self).adj()[u]).len() > 0
                    ==> old(self).adj()[u].len() > 0,
            grounded(
                old(self).graph().adj(),
                old(self).adj().update(key.0 as int, links_view(neighbors@)),
                old(self).shortcuts(),
            ) && paired(old(self).adj().update(key.0 as int, links_view(neighbors@))) ==> grounded(
                final(self).graph().adj(),
                final(self).adj(),
                final(self).shortcuts(),
            ),
            on_course(
                old(self).graph().adj(),
                old(self).adj().update(key.0 as int, links_view(neighbors@)),
                old(self).shortcuts(),
                old(self).ranks(),
            ) && paired(old(self).adj().update(key.0 as int, links_view(neighbors@))) && necessary(
                old(self).adj(),
                key,
                links_view(neighbors@),
                found@,
            ) && lean(
                old(self).adj(),
                found@,
            ) ==> on_course(
                final(self).graph().adj(),
                final(self).adj(),
                final(self).shortcuts(),
                final(self).ranks(),
            ),
            plain(old(self).adj().update(key.0 as int, links_view(neighbors@))) && old(self).shortcuts().no_duplicates() && sifted(links_view(neighbors@), found@) ==> plain(
                final(self).adj(),
            ) && final(self).shortcuts().no_duplicates(),
            all_two_ended(old(self).adj()) && two_ended(links_view(neighbors@)) ==> all_two_ended(
                final(self).adj(),
            ),
    {
        let ghost lanky = all_two_ended(self.adj()) && two_ended(links_view(neighbors@));
        let ghost adj0 = self.adj();
        let ghost ranks0 = self.ranks();
        let ghost list0 = self.shortcuts();
        let ghost nb = links_view(neighbors@);
        let ghost n = adj0.len() as int;
        let ghost k0 = key.0 as int;
        let ghost base = self.graph().adj();
        let ghost work = adj0.update(k0, nb);
        let ghost firm = grounded(base, work, list0) && paired(work);
        let ghost sure = on_course(base, work, list0, ranks0) && paired(work) && necessary(
            adj0,
            key,
            nb,
            found@,
        ) && lean(adj0, found@);
        let ghost tidy = plain(work) && list0.no_duplicates() && sifted(nb, found@);
        proof {
            if tidy {
                assert forall|u: int| 0 <= u < adj0.len() implies plain_list(#[trigger] adj0[u]) by {
                    if u == k0 {
                        assert(adj0[u] =~= Seq::<LinkView>::empty());
                        assert forall|t: int, dir: IdxLinkDir| #[trigger]
                            crate::adjacency::costs_to(adj0[u], t, dir).len() <= 1 by {}
                    } else {
                        assert(adj0[u] == work[u]);
                        assert(plain_list(work[u]));
                    }
                }
                assert(plain_list(work[k0]));
                assert forall|a: int, b: int|
                    0 <= a < found@.len() && 0 <= b < found@.len() && a != b implies found@[a]
                    != found@[b] by {
                    if a < b {
                        crate::scoring::lemma_sifted_distinct(nb, found@, a, b);
                    } else {
                        crate::scoring::lemma_sifted_distinct(nb, found@, b, a);
                    }
                }
                assert forall|a: int, b: int|
                    0 <= a < list0.len() && 0 <= b < found@.len() implies list0[a] != found@[b] by {
                    assert(shortcut_ok(ranks0, list0[a]));
                    assert(via_shape(nb, key, found@[b]));
                }
                vstd::seq_lib::lemma_no_dup_in_concat(list0, found@);
            }
        }
        let idx = key.index();
        proof {
            lemma_rank_assigned(ranks0, k0, rank - 1);
            lemma_shortcuts_stay_ok(ranks0, list0, k0, rank - 1);
            if firm {
                lemma_wf_framed(self);
                lemma_put_back_in_range(adj0, k0, nb);
                lemma_set_out_held(base, work, list0, found@, k0);
                assert(adj0[k0] =~= Seq::<LinkView>::empty());
                assert(work.update(k0, Seq::<LinkView>::empty()) =~= adj0);
                if sure {
                    lemma_set_out_undercut(full_adj(base, list0), work, ranks0, k0, rank);
                }
            }
        }
        self.order.set(idx, rank);
        let ghost ranks1 = self.ranks();
        assert(ranks1 == ranks0.update(k0, rank));
        self.merge_found(key, found, Ghost(nb));
        let ghost adj1 = self.adj();
        proof {
            lemma_swept(adj1, k0, nb);
        }
        self.gc_contraction(key, neighbors);
        proof {
            if tidy {
                crate::contraction::lemma_swept_plain(adj1, k0, nb);
            }
            if lanky {
                lemma_narrow_contracted(adj0, key, nb, found@, adj1);
            }
            let adj2 = self.adj();
            assert forall|u: int| 0 <= u < n && ranks1[u] != u32::MAX implies (
            #[trigger] adj2[u]).len() == 0 by {
                if u != k0 {
                    assert(adj1[u].len() == 0);
                }
            }
            assert forall|u: int| 0 <= u < n && (#[trigger] adj2[u]).len() > 0 implies adj0[u].len()
                > 0 by {
                assert(adj1[u].len() > 0);
            }
            if firm {
                let full = full_adj(base, list0 + found@);
                lemma_sweep_held(full, adj1, k0, nb);
                assert forall|u: int| 0 <= u < adj2.len() && (#[trigger] adj2[u]).len()
                    > 0 implies base[u].len() > 0 by {
                    assert(adj0[u].len() > 0);
                    assert(u != k0);
                    assert(work[u] == adj0[u]);
                }
                lemma_contraction_grounded(base, work, list0, found@, ranks0, key, adj2);
                if sure {
                    lemma_sweep_undercut(full, adj1, k0, nb, ranks1);
                    assert forall|u: int| 0 <= u < n && ranks0[u] != u32::MAX implies (
                    #[trigger] work[u]).len() == 0 by {
                        assert(work[u] == adj0[u]);
                        assert(adj0[u].len() == 0);
                    }
                    lemma_contraction_on_course(base, work, list0, found@, ranks0, key, rank, adj2);
                }
            }
        }
    }

    /// Makes the working links anew from the arcs worth keeping: each arc that
    /// is an end of a shortcut which the contraction of one of its nodes
    /// would need under the hop limit. These are merged, one after the other,
    /// into an array without links; the others are dropped, the shortcuts
    /// made so far stay.
    pub(crate) fn rebuild_contractions(&mut self, hop_limit: u16, Ghost(count): Ghost<int>)
        requires
            steady(old(self), count),
            hop_limit >= 1,
        ensures
            steady(final(self), count),
            final(self).graph() == old(self).graph(),
            final(self).ranks() == old(self).ranks(),
            final(self).shortcuts() == old(self).shortcuts(),
            rebuilt_from(old(self).adj(), final(self).adj()),
            plain(final(self).adj()),
            grounded(old(self).graph().adj(), old(self).adj(), old(self).shortcuts()) ==> grounded(
                final(self).graph().adj(),
                final(self).adj(),
                final(self).shortcuts(),
            ),
    {
        let ghost adj0 = self.adj();
        let ghost n = adj0.len() as int;
        let ghost base = self.graph().adj();
        let ghost full = full_adj(base, self.shortcuts());
        let ghost firm = grounded(base, adj0, self.shortcuts());
        let len = self.graph.node_len;
        let entries = par_kept_arcs(self, hop_limit);
        let ghost kept = entries@;
        let mut cleared: Vec<Vec<IdxLink>> = Vec::with_capacity(len);
        let mut u: usize = 0;
        while u < len
            invariant
                u <= len,
                cleared@.len() == u,
                forall|w: int| 0 <= w < u ==> (#[trigger] cleared@[w])@.len() == 0,
            decreases len - u,
        {
            cleared.push(Vec::new());
            u += 1;
        }
        self.contractions = cleared;
        proof {
            let adj = self.adj();
            assert forall|w: int| 0 <= w < n implies (#[trigger] adj[w]).len() == 0 by {
                assert(adj[w] == links_view(self.contractions@[w]@));
            }
            assert forall|a: int, b: int| 0 <= a < n && 0 <= b < n implies #[trigger] crate::adjacency::costs_to(
                adj[a],
                b,
                IdxLinkDir::Forward,
            ) == crate::adjacency::costs_to(adj[b], a, IdxLinkDir::Backward) by {
                assert(adj[a] =~= Seq::<LinkView>::empty());
                assert(adj[b] =~= Seq::<LinkView>::empty());
            }
            assert forall|w: int| 0 <= w < n implies targets_within(#[trigger] adj[w], n) && grouped(
                adj[w],
            ) by {}
            assert forall|x: int, y: int, c: int|
                x != -1 && y != -1 && #[trigger] step(adj, IdxLinkDir::Forward, x, y, c) implies step(
                full,
                IdxLinkDir::Forward,
                x,
                y,
                c,
            ) by {
                assert(adj[x].len() == 0);
            }
            assert forall|w: int| 0 <= w < adj.len() implies plain_list(#[trigger] adj[w]) by {
                assert(adj[w] =~= Seq::<LinkView>::empty());
                assert forall|t: int, dir: IdxLinkDir| #[trigger]
                    crate::adjacency::costs_to(adj[w], t, dir).len() <= 1 by {}
            }
            assert(adj =~= bare(n)) by {
                assert forall|w: int| 0 <= w < n implies adj[w] == bare(n)[w] by {
                    assert(adj[w] =~= Seq::<LinkView>::empty());
                }
            }
            assert(kept.take(0) =~= Seq::<(IdxNodeKey, IdxNodeKey, u32)>::empty());
        }
        let mut i: usize = 0;
        while i < entries.len()
            invariant
                kept == entries@,
                self.adj() == laid(bare(n), kept.take(i as int)),
                plain(self.adj()),
                base == self.graph().adj(),
                full == full_adj(base, self.shortcuts()),
                firm ==> held(full, adj0, -1),
                firm ==> held(full, self.adj(), -1),
                self.wf(),
                self.graph() == old(self).graph(),
                self.ranks() == old(self).ranks(),
                self.shortcuts() == old(self).shortcuts(),
                n == adj0.len(),
                self.adj().len() == n,
                all_grouped(self.adj()),
                paired(self.adj()),
                i <= entries.len(),
                forall|k: int| 0 <= k < entries@.len() ==> kept_ok(adj0, #[trigger] entries@[k]),
                forall|w: int|
                    0 <= w < n && (#[trigger] self.adj()[w]).len() > 0 ==> adj0[w].len() > 0,
            decreases entries.len() - i,
        {
            let (from, to, cost) = entries[i];
            assert(kept_ok(adj0, entries@[i as int]));
            let ghost cur = self.adj();
            proof {
                if firm {
                    lemma_arc_held(full, cur, from.0 as int, to.0 as int, cost as int, -1);
                }
                crate::contraction::lemma_with_arc_plain(
                    cur,
                    from.0 as int,
                    to.0 as int,
                    cost as int,
                );
                crate::contraction::lemma_with_arc_paired(
                    cur,
                    from.0 as int,
                    to.0 as int,
                    cost as int,
                );
                assert(grouped(cur[from.0 as int]));
            }
            self.add_contraction_dir(from, to, cost, IdxLinkDir::Forward);
            proof {
                let mid = self.adj();
                assert(targets_within(cur[from.0 as int], n));
                crate::contraction::lemma_merged_shape(
                    cur[from.0 as int],
                    LinkView { to: to.0 as int, cost: cost as int, dir: IdxLinkDir::Forward },
                    n,
                );
                assert forall|w: int| 0 <= w < n implies targets_within(#[trigger] mid[w], n) by {
                    if w != from.0 {
                        assert(mid[w] == cur[w]);
                        assert(targets_within(cur[w], n));
                    }
                }
                assert(mid[to.0 as int] == cur[to.0 as int]);
                assert(grouped(cur[to.0 as int]));
            }
            self.add_contraction_dir(to, from, cost, IdxLinkDir::Backward);
            proof {
                let after = self.adj();
                assert(after =~= with_arc(cur, from.0 as int, to.0 as int, cost as int));
                assert(kept.take(i + 1).drop_last() =~= kept.take(i as int));
                assert(kept.take(i + 1).last() == kept[i as int]);
                assert forall|w: int| 0 <= w < n && (#[trigger] after[w]).len() > 0 implies adj0[w].len()
                    > 0 by {
                    if w != from.0 && w != to.0 {
                        assert(after[w] == cur[w]);
                    }
                }
            }
            i += 1;
        }
        proof {
            let adj = self.adj();
            assert forall|w: int| 0 <= w < n && self.ranks()[w] != u32::MAX implies (
            #[trigger] adj[w]).len() == 0 by {
                if adj[w].len() > 0 {
                    assert(adj0[w].len() > 0);
                }
            }
            if firm {
                assert forall|w: int| 0 <= w < adj.len() && (#[trigger] adj[w]).len() > 0 implies base[w].len()
                    > 0 by {
                    assert(adj0[w].len() > 0);
                }
            }
            assert(kept.take(entries.len() as int) =~= kept);
            assert(adj == laid(bare(adj0.len() as int), kept));
        }
    }

    /// The number of links in the working adjacency.
    pub fn link_count(&self) -> (total: u128)
        requires
            self.wf(),
        ensures
            total == link_total(self.adj()),
            total <= 0xffff_ffff_ffff_ffff_ffff_ffff,
    {
        let ghost adj = self.adj();
        let mut total: u128 = 0;
        let mut u: usize = 0;
        assert(adj.take(0) =~= Seq::<Seq<LinkView>>::empty());
        while u < self.contractions.len()
            invariant
                adj == self.adj(),
                adj.len() == self.contractions@.len(),
                adj.len() < 0x1_0000_0000,
                u <= self.contractions.len(),
                total == link_total(adj.take(u as int)),
                total <= u * 0xffff_ffff_ffff_ffff,
            decreases self.contractions.len() - u,
        {
            let more = self.contractions[u].len() as u128;
            proof {
                assert(adj.take(u + 1).drop_last() =~= adj.take(u as int));
                assert(adj.take(u + 1).last() == adj[u as int]);
                assert((u + 1) * 0xffff_ffff_ffff_ffff == u * 0xffff_ffff_ffff_ffff
                    + 0xffff_ffff_ffff_ffff) by (nonlinear_arith);
                assert(u * 0xffff_ffff_ffff_ffff <= 0xffff_ffff * 0xffff_ffff_ffff_ffff)
                    by (nonlinear_arith)
                    requires
                        u <= 0xffff_ffff,
                ;
            }
            total = total + more;
            u += 1;
        }
        proof {
            assert(adj.take(u as int) =~= adj);
            assert(u * 0xffff_ffff_ffff_ffff <= 0xffff_ffff * 0xffff_ffff_ffff_ffff)
                by (nonlinear_arith)
                requires
                    u <= 0xffff_ffff,
            ;
        }
        total
    }

    /// Contracts the nodes of a fresh hierarchy one after the other, each
    /// time the one with the lowest score, until the queue is empty. Returns
    /// what it met on the way and the number of nodes it contracted. A node
    /// that lost its links before the queue was built anew is not contracted
    /// here.
    #[verifier::rlimit(60)]
    fn contract_queue(&mut self) -> (r: (BuildReport, u32))
        requires
            old(self).fresh(),
        ensures
            final(self).graph() == old(self).graph(),
            steady(final(self), r.1 as int),
            forall|u: int|
                0 <= u < final(self).adj().len() ==> (#[trigger] final(self).adj()[u]).len() == 0,
            forall|u: int|
                0 <= u < final(self).ranks().len() && final(self).ranks()[u] != u32::MAX ==> (
                #[trigger] final(self).graph().adj()[u]).len() > 0,
            r.0.pruned <= r.0.rebuilds,
            r.0.pruned == 0 ==> on_course(
                final(self).graph().adj(),
                final(self).adj(),
                final(self).shortcuts(),
                final(self).ranks(),
            ),
            grounded(final(self).graph().adj(), final(self).adj(), final(self).shortcuts()),
            plain(old(self).graph().adj()) ==> plain(final(self).adj()) && final(self).shortcuts().no_duplicates(),
            quiet(old(self).graph().adj()) ==> r.0.rebuilds == 0,
            modest(old(self).graph().adj()) ==> r.0.tight == 0,
            narrow(old(self).graph().adj()) ==> r.0.pruned == 0,
    {
        let node_len = self.graph.node_len;
        let ghost base = self.graph.adj();
        let ghost n = node_len as int;
        let mut deleted_count: Vec<u16> = Vec::with_capacity(node_len);
        let mut d: usize = 0;
        while d < node_len
            invariant
                d <= node_len,
                deleted_count@.len() == d,
                forall|k: int| 0 <= k < d ==> #[trigger] deleted_count@[k] == 0,
            decreases node_len - d,
        {
            deleted_count.push(0);
            d += 1;
        }
        let ghost calmly = quiet(base);
        let ghost meek = modest(base);
        let ghost lank = narrow(base);
        let ghost mut requeued: int = 0;
        let ghost top = top_cost(base.len());
        let ghost mut cap: int = top;
        let mut hop_limit: u16 = 1;
        proof {
            crate::hierarchy::lemma_none_ranked(self.ranks());
            assert(steady(self, 0));
            lemma_course_begins(base, self.ranks());
            assert(self.shortcuts() =~= Seq::<CHContraction>::empty());
        }
        let mut heap = self.build_heap(&deleted_count, hop_limit);
        let mut order: u32 = 0;
        let mut rebuild_try_count: usize = if heap.len() / 10 > HEAP_MIN_INTERVAL {
            heap.len() / 10
        } else {
            HEAP_MIN_INTERVAL
        };
        let mut rebuilds: usize = 0;
        let mut pruned: usize = 0;
        let mut tight: usize = 0;
        let mut moved: bool = false;
        proof {
            if calmly {
                assert forall|e: CHEntry| #[trigger] heap@.contains(e) implies -2400 <= e.score
                    <= 40 by {
                    lemma_scored_range(self.adj(), deleted_count@, e);
                }
                heap.lemma_weight_high(40);
            }
            lemma_top_cost(base.len());
        }
        loop
            invariant_except_break
                calmly ==> forall|e: CHEntry| #[trigger] heap@.contains(e) ==> -2400 <= e.score <= 40,
                calmly ==> heap.weight() + 2400 * heap@.len() + 3 * requeued <= 48800,
                calmly ==> rebuild_try_count + requeued + order >= HEAP_MIN_INTERVAL,
                calmly ==> forall|u: int| 0 <= u < n ==> (#[trigger] deleted_count@[u]) <= 40 * order,
                requeued >= 0,
            invariant
                calmly == quiet(base),
                calmly ==> rebuilds == 0,
                meek == modest(base),
                meek ==> tight == 0,
                lank == narrow(base),
                lank ==> pruned == 0 && all_two_ended(self.adj()),
                top == top_cost(base.len()),
                meek ==> cap >= top && lengths_within(self.shortcuts(), cap) && doubles(
                    cap,
                    n - order,
                    top,
                    base.len(),
                ),
                self.graph() == old(self).graph(),
                base == self.graph().adj(),
                n == node_len,
                n == self.adj().len(),
                n < u32::MAX,
                steady(self, order as int),
                heap.wf(),
                covered(self.adj(), heap@),
                forall|e: CHEntry|
                    #[trigger] heap@.contains(e) ==> e.key.0 < n && base[e.key.0 as int].len() > 0,
                forall|u: int|
                    0 <= u < n && self.ranks()[u] != u32::MAX ==> (#[trigger] base[u]).len() > 0,
                pruned <= rebuilds,
                deleted_count@.len() == n,
                hop_limit >= 1,
                rebuild_try_count >= 1,
                pruned == 0 ==> on_course(
                    base,
                    self.adj(),
                    self.shortcuts(),
                    self.ranks(),
                ),
                grounded(base, self.adj(), self.shortcuts()),
                plain(base) ==> plain(self.adj()) && self.shortcuts().no_duplicates(),
            ensures
                calmly ==> rebuilds == 0,
                meek ==> tight == 0,
                lank ==> pruned == 0,
                plain(self.graph().adj()) ==> plain(self.adj()) && self.shortcuts().no_duplicates(),
                pruned <= rebuilds,
                forall|u: int|
                    0 <= u < self.ranks().len() && self.ranks()[u] != u32::MAX ==> (
                    #[trigger] self.graph().adj()[u]).len() > 0,
                grounded(self.graph().adj(), self.adj(), self.shortcuts()),
                self.graph() == old(self).graph(),
                steady(self, order as int),
                forall|u: int| 0 <= u < self.adj().len() ==> (#[trigger] self.adj()[u]).len() == 0,
                pruned == 0 ==> on_course(
                    self.graph().adj(),
                    self.adj(),
                    self.shortcuts(),
                    self.ranks(),
                ),
            decreases
                    n - order,
                    (if moved {
                        1int
                    } else {
                        0int
                    }),
                    heap.weight() + heap@.len() * 0x8000_0001,
        {
            proof {
                heap.lemma_weight_low(-0x8000_0000);
            }
            let ghost heap0 = heap@;
            let ghost weight0 = heap.weight();
            let entry = match heap.pop() {
                None => {
                    proof {
                        assert forall|u: int| 0 <= u < n implies (#[trigger] self.adj()[u]).len()
                            == 0 by {
                            if self.adj()[u].len() > 0 {
                                assert(queued(heap@, u));
                            }
                        }
                    }
                    break ;
                },
                Some(e) => e,
            };
            let key = entry.key;
            let idx = key.index();
            proof {
                assert(heap0.contains(entry));
                assert(heap@.len() == heap0.len() - 1);
                heap.lemma_weight_low(-0x8000_0000);
                assert forall|e: CHEntry| #[trigger] heap@.contains(e) implies e.key.0 < n
                    && base[e.key.0 as int].len() > 0 by {
                    assert(heap0.contains(e));
                }
                if calmly {
                    assert forall|e: CHEntry| #[trigger] heap@.contains(e) implies -2400 <= e.score
                        <= 40 by {
                        assert(heap0.contains(e));
                    }
                    assert(-2400 <= entry.score);
                    heap.lemma_weight_low(-2400);
                }
                assert forall|u: int| u != key.0 && queued(heap0, u) implies queued(heap@, u) by {
                    let e = choose|e: CHEntry| #[trigger] heap0.contains(e) && e.key.0 == u;
                    assert(heap@.contains(e));
                }
            }
            if self.order[idx] != u32::MAX {
                proof {
                    assert forall|u: int|
                        0 <= u < n && self.adj()[u].len() > 0 implies #[trigger] queued(heap@, u) by {
                        assert(queued(heap0, u));
                    }
                }
                continue ;
            }
            let mut rebuilt = false;
            rebuild_try_count -= 1;
            if rebuild_try_count == 0 {
                proof {
                    if calmly {
                        // too few entries were handled for the queue to be due
                        assert(3 * requeued <= 48800);
                        assert(order <= n);
                        assert(false);
                    }
                }
                if moved {
                    let remain_count = node_len - order as usize;
                    let num_vertices = self.link_count();
                    let prev_hop_limit = hop_limit;
                    proof {
                        if lank {
                            // four links at most for each node that is left
                            lemma_narrow_total(self.adj(), self.ranks(), n);
                            assert(self.adj().take(n) =~= self.adj());
                            assert(self.ranks().take(n) =~= self.ranks());
                            assert(num_vertices <= 4 * remain_count);
                        }
                    }
                    hop_limit = raise_hop_limit(hop_limit, num_vertices, remain_count);
                    if hop_limit != prev_hop_limit {
                        self.rebuild_contractions(hop_limit, Ghost(order as int));
                        let mut z: usize = 0;
                        while z < node_len
                            invariant
                                z <= node_len,
                                deleted_count@.len() == node_len,
                            decreases node_len - z,
                        {
                            deleted_count.set(z, 0);
                            z += 1;
                        }
                    }
                    heap = self.build_heap(&deleted_count, hop_limit);
                    moved = false;
                    rebuilt = true;
                    if rebuilds < usize::MAX {
                        rebuilds += 1;
                    }
                    if hop_limit != prev_hop_limit && pruned < rebuilds {
                        pruned += 1;
                    }
                    proof {
                        assert forall|e: CHEntry| #[trigger] heap@.contains(e) implies base[e.key.0 as int].len()
                            > 0 by {
                            assert(self.adj()[e.key.0 as int].len() > 0);
                        }
                    }
                }
                rebuild_try_count = if heap.len() / 10 > HEAP_MIN_INTERVAL {
                    heap.len() / 10
                } else {
                    HEAP_MIN_INTERVAL
                };
            }
            proof {
                heap.lemma_weight_low(-0x8000_0000);
            }
            // lazy update: re-calculate score

            let ghost adj1 = self.adj();
            let ghost heap1 = heap@;
            let ghost sure = pruned == 0;
            assert(sure ==> on_course(base, adj1, self.shortcuts(), self.ranks()));
            let ghost weight1 = heap.weight();
            let mut neighbors: Vec<IdxLink> = Vec::new();
            std::mem::swap(&mut neighbors, &mut self.contractions[idx]);
            let ghost nb = links_view(neighbors@);
            proof {
                assert(nb == adj1[key.0 as int]);
                assert(self.adj() =~= adj1.update(key.0 as int, Seq::<LinkView>::empty())) by {
                    assert forall|u: int| 0 <= u < n implies self.adj()[u] == adj1.update(
                        key.0 as int,
                        Seq::<LinkView>::empty(),
                    )[u] by {
                        if u == key.0 {
                            assert(self.adj()[u] =~= Seq::<LinkView>::empty());
                        }
                    }
                }
                lemma_taken_out(adj1, key.0 as int);
                assert(targets_within(adj1[key.0 as int], n));
                assert forall|u: int| 0 <= u < n implies targets_within(
                    #[trigger] self.adj()[u],
                    n,
                ) && grouped(self.adj()[u]) by {
                    if u != key.0 {
                        assert(self.adj()[u] == adj1[u]);
                        assert(targets_within(adj1[u], n));
                        assert(grouped(adj1[u]));
                    }
                }
            }
            let contractions = self.dijkstra_contract(key, neighbors.as_slice(), hop_limit);
            proof {
                if lank {
                    assert(two_ended(adj1[key.0 as int]));
                    assert(all_two_ended(self.adj())) by {
                        assert forall|u: int| 0 <= u < n implies two_ended(
                            #[trigger] self.adj()[u],
                        ) by {
                            if u != key.0 {
                                assert(self.adj()[u] == adj1[u]);
                                assert(two_ended(adj1[u]));
                            } else {
                                assert(ends_in(self.adj()[u], 0, 0));
                            }
                        }
                    }
                }
            }
            let score = score(neighbors.len(), contractions.len(), deleted_count[idx]);
            proof {
                if calmly {
                    assert(plain_list(adj1[key.0 as int]));
                    assert(order <= n);
                    lemma_row_range(
                        nb,
                        n,
                        contractions@.len() as int,
                        deleted_count@[idx as int] as int,
                    );
                }
            }
            // score is updated
            if (score as i64) < entry.score as i64 - SCORE_TOLERANCE {
                std::mem::swap(&mut neighbors, &mut self.contractions[idx]);
                proof {
                    assert(self.adj() =~= adj1) by {
                        assert forall|u: int| 0 <= u < n implies self.adj()[u] == adj1[u] by {
                            if u == key.0 {
                                assert(self.adj()[u] == nb);
                            }
                        }
                    }
                }
                heap.push(CHEntry { score, key });
                proof {
                    let pushed = CHEntry { score, key };
                    if calmly {
                        assert forall|e: CHEntry| #[trigger] heap@.contains(e) implies -2400
                            <= e.score <= 40 by {
                            if e != pushed {
                                assert(heap1.contains(e));
                            }
                        }
                        requeued = requeued + 1;
                    }
                    assert forall|e: CHEntry| #[trigger] heap@.contains(e) implies e.key.0 < n
                    && base[e.key.0 as int].len() > 0 by {
                        if e != pushed {
                            assert(heap1.contains(e));
                        }
                    }
                    assert forall|u: int|
                        0 <= u < n && self.adj()[u].len() > 0 implies #[trigger] queued(heap@, u) by {
                        if u == key.0 {
                            assert(heap@.contains(pushed));
                        } else {
                            if rebuilt {
                                assert(queued(heap1, u));
                            } else {
                                assert(queued(heap0, u));
                                assert(queued(heap1, u));
                            }
                            let e = choose|e: CHEntry| #[trigger] heap1.contains(e) && e.key.0 == u;
                            assert(heap@.contains(e));
                        }
                    }
                    heap.lemma_weight_low(-0x8000_0000);
                }
                continue ;
            }
            proof {
                crate::hierarchy::lemma_contracted_room(self.ranks(), key.0 as int);
            }
            order += 1;
            let mut t: usize = 0;
            while t < neighbors.len()
                invariant
                    t <= neighbors.len(),
                    nb == links_view(neighbors@),
                    targets_within(nb, n),
                    deleted_count@.len() == n,
                    order >= 1,
                    calmly ==> forall|u: int|
                        0 <= u < n ==> (#[trigger] deleted_count@[u]) <= 40 * (order - 1) + t,
                decreases neighbors.len() - t,
            {
                let neighbor = neighbors[t];
                assert(neighbor@ == nb[t as int]);
                let at = neighbor.enode_idx().index();
                if deleted_count[at] < u16::MAX {
                    let bumped = deleted_count[at] + 1;
                    deleted_count.set(at, bumped);
                }
                t += 1;
            }
            // add contractions, update order

            let ghost adj2 = self.adj();
            proof {
                if meek {
                    lemma_costs_rise(base, top, cap);
                    lemma_working_costs(base, adj1, self.shortcuts(), cap);
                    assert(row_within(adj1[key.0 as int], cap));
                    lemma_top_cost(base.len());
                    lemma_cap_doubles(cap, n - (order - 1), top, base.len());
                    lemma_row_roomy(nb, cap);
                    lemma_lengths_grow(self.shortcuts(), contractions@, nb, key, cap);
                    cap = 2 * cap;
                }
            }
            if !pairs_fit(&neighbors) && tight < usize::MAX {
                tight += 1;
            }
            proof {
                assert(adj2.update(key.0 as int, nb) =~= adj1);
            }
            self.accept(key, &neighbors, &contractions, order);
            moved = true;
            proof {
                assert forall|u: int|
                    0 <= u < n && self.adj()[u].len() > 0 implies #[trigger] queued(heap@, u) by {
                    assert(adj2[u].len() > 0);
                    assert(u != key.0);
                    assert(adj1[u] == adj2[u]);
                    if !rebuilt {
                        assert(queued(heap0, u));
                    }
                    assert(queued(heap1, u));
                }
                heap.lemma_weight_low(-0x8000_0000);
            }
        }
        (BuildReport { rebuilds, pruned, tight }, order)
    }

    /// Contracts every node that has links in the graph: first the nodes in
    /// the queue, each time the one with the lowest score, until the queue
    /// is empty; then, in the order of their keys, the nodes that were left
    /// without working links when the queue was built anew. Returns what the
    /// build met on the way; where it did not prune, the hierarchy is
    /// faithful. Over a quiet graph the queue is never built anew, over a
    /// modest one no node is met whose links cost too much, and over a narrow
    /// one the hop limit never rises, so that nothing is pruned.
    pub(crate) fn contract_all(&mut self) -> (report: BuildReport)
        requires
            old(self).fresh(),
        ensures
            final(self).graph() == old(self).graph(),
            exists|count: int| #[trigger] steady(final(self), count),
            forall|u: int|
                0 <= u < final(self).adj().len() ==> (#[trigger] final(self).adj()[u]).len() == 0,
            forall|u: int|
                0 <= u < final(self).ranks().len() ==> (final(self).ranks()[u] != u32::MAX <==> (
                #[trigger] final(self).graph().adj()[u]).len() > 0),
            report.pruned <= report.rebuilds,
            report.pruned == 0 ==> faithful(
                final(self).graph().adj(),
                final(self).shortcuts(),
                final(self).ranks(),
            ),
            real_shortcuts(final(self).graph().adj(), final(self).shortcuts()),
            all_through(final(self).graph().adj(), final(self).shortcuts()),
            decomposed(final(self).graph().adj(), final(self).shortcuts()),
            plain(final(self).graph().adj()) ==> final(self).shortcuts().no_duplicates(),
            quiet(old(self).graph().adj()) ==> report.rebuilds == 0,
            modest(old(self).graph().adj()) ==> report.tight == 0,
            narrow(old(self).graph().adj()) ==> report.pruned == 0,
    {
        let (report, contracted) = self.contract_queue();
        let node_len = self.graph.node_len;
        let ghost base = self.graph.adj();
        let ghost n = node_len as int;
        let mut order: u32 = contracted;
        let none: Vec<IdxLink> = Vec::new();
        let nothing: Vec<CHContraction> = Vec::new();
        let mut u: usize = 0;
        while u < node_len
            invariant
                self.graph() == old(self).graph(),
                base == self.graph().adj(),
                n == node_len,
                n == self.adj().len(),
                n < u32::MAX,
                u <= node_len,
                none@.len() == 0,
                nothing@.len() == 0,
                steady(self, order as int),
                forall|w: int| 0 <= w < n ==> (#[trigger] self.adj()[w]).len() == 0,
                forall|w: int|
                    0 <= w < n && self.ranks()[w] != u32::MAX ==> (#[trigger] base[w]).len() > 0,
                forall|w: int|
                    0 <= w < u && (#[trigger] base[w]).len() > 0 ==> self.ranks()[w] != u32::MAX,
                report.pruned == 0 ==> on_course(base, self.adj(), self.shortcuts(), self.ranks()),
                grounded(base, self.adj(), self.shortcuts()),
                plain(base) ==> plain(self.adj()) && self.shortcuts().no_duplicates(),
            decreases node_len - u,
        {
            if self.order[u] == u32::MAX && self.graph.idx_links[u].len() > 0 {
                let key = IdxNodeKey::new(u);
                let ghost adj0 = self.adj();
                let ghost ranks0 = self.ranks();
                proof {
                    assert(base[u as int] == links_view(self.graph.idx_links@[u as int]@));
                    crate::hierarchy::lemma_contracted_room(ranks0, u as int);
                    assert(adj0[u as int] =~= Seq::<LinkView>::empty());
                    assert(adj0.update(u as int, Seq::<LinkView>::empty()) =~= adj0);
                    lemma_taken_out(adj0, u as int);
                    assert(links_view(none@) =~= Seq::<LinkView>::empty());
                    assert(adj0.update(key.0 as int, links_view(none@)) =~= adj0);
                    assert(necessary(adj0, key, links_view(none@), nothing@));
                    assert(lean(adj0, nothing@));
                    assert(sifted(links_view(none@), nothing@)) by {
                        let pairs = Seq::<(int, int)>::empty();
                        assert(pairs.len() == nothing@.len());
                    }
                }
                order += 1;
                self.accept(key, &none, &nothing, order);
                proof {
                    assert forall|w: int| 0 <= w < n implies (#[trigger] self.adj()[w]).len() == 0 by {
                        if self.adj()[w].len() > 0 {
                            assert(adj0[w].len() > 0);
                        }
                    }
                }
            } else {
                proof {
                    assert(base[u as int] == links_view(self.graph.idx_links@[u as int]@));
                }
            }
            u += 1;
        }
        proof {
            if report.pruned == 0 {
                lemma_course_ends(base, self.adj(), self.shortcuts(), self.ranks(), order as int);
            }
        }
        report
    }
}

/// The number of links of an adjacency array.
pub open spec fn link_total(adj: Seq<Seq<LinkView>>) -> int
    decreases adj.len(),
{
    if adj.len() == 0 {
        0
    } else {
        link_total(adj.drop_last()) + adj.last().len()
    }
}

/// The hop limit that goes with `links` links among `remaining` nodes: 5
/// where a node has more than 8 arcs on average, 3 above 5, 2 above 3.3, and
/// never less than the limit so far. An arc counts as two links.
pub open spec fn hop_limit_for(hop_limit: u16, links: int, remaining: int) -> u16 {
    if links > 16 * remaining && hop_limit < 5 {
        5
    } else if links > 10 * remaining && hop_limit < 3 {
        3
    } else if 5 * links > 33 * remaining && hop_limit < 2 {
        2
    } else {
        hop_limit
    }
}

/// The hop limit that goes with the average degree.
pub fn raise_hop_limit(hop_limit: u16, links: u128, remaining: usize) -> (next: u16)
    requires
        links <= 0xffff_ffff_ffff_ffff_ffff_ffff_ffff,
    ensures
        next == hop_limit_for(hop_limit, links as int, remaining as int),
        next >= hop_limit,
        hop_limit >= 1 ==> next >= 1,
{
    let remaining = remaining as u128;
    if links > 16 * remaining && hop_limit < 5 {
        5
    } else if links > 10 * remaining && hop_limit < 3 {
        3
    } else if 5 * links > 33 * remaining && hop_limit < 2 {
        2
    } else {
        hop_limit
    }
}

} // verus!
