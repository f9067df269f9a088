//! Graphs from plain edge lists, as a reader of line shapes hands them on.

use crate::adjacency::{adj_of, links_view, rev_upto};
use crate::graph::Graph;
use crate::network::{IdxLink, IdxLinkDir, IdxNodeKey, LinkView, KEY_SPACE};
use ordslice::Ext;
use vstd::prelude::*;

verus! {

/// An arc from node `s` to node `t` of length `len`.
#[derive(Clone, Copy, Debug, PartialOrd, Ord, PartialEq, Eq, Structural)]
pub struct Edge {
    pub s: u32,
    pub t: u32,
    pub len: u32,
}

impl Edge {
    /// The node the edge starts at.
    pub fn source(&self) -> (s: u32)
        ensures
            s == self.s,
    {
        self.s
    }
}

/// The edges are sorted by the node they start at.
pub open spec fn sorted_by_source(edges: Seq<Edge>) -> bool {
    forall|i: int, j: int| 0 <= i <= j < edges.len() ==> (#[trigger] edges[i]).s <= (
    #[trigger] edges[j]).s
}

/// The link that an edge is at its start: it leads to the end of the edge,
/// at the length of the edge as far as that fits 30 bits.
pub open spec fn link_of(e: Edge) -> LinkView {
    LinkView { to: e.t as int, cost: (e.len % 0x4000_0000) as int, dir: IdxLinkDir::Forward }
}

/// The links that the edges give to node `u`: one for each edge that starts
/// there, in the order of the list.
pub open spec fn out_links(edges: Seq<Edge>, u: int) -> Seq<LinkView>
    decreases edges.len(),
{
    if edges.len() == 0 {
        Seq::empty()
    } else {
        let rest = out_links(edges.drop_last(), u);
        if edges.last().s == u {
            rest.push(link_of(edges.last()))
        } else {
            rest
        }
    }
}

/// The outgoing links of each of `node_len` nodes.
pub open spec fn rows_of(node_len: usize, edges: Seq<Edge>) -> Seq<Seq<LinkView>> {
    Seq::new(node_len as nat, |u: int| out_links(edges, u))
}

/// Where the edges that start at `u` are those at the places from `lo` up
/// to `hi`, the links of `u` are the links of these edges.
pub proof fn lemma_out_links(edges: Seq<Edge>, u: int, lo: int, hi: int)
    requires
        0 <= lo <= hi <= edges.len(),
        forall|i: int| 0 <= i < edges.len() ==> (lo <= i < hi <==> (#[trigger] edges[i]).s == u),
    ensures
        out_links(edges, u) == Seq::new((hi - lo) as nat, |j: int| link_of(edges[lo + j])),
    decreases edges.len(),
{
    let want = Seq::new((hi - lo) as nat, |j: int| link_of(edges[lo + j]));
    if edges.len() == 0 {
        assert(out_links(edges, u) =~= want);
    } else {
        let init = edges.drop_last();
        let n = edges.len() as int;
        if edges.last().s == u {
            assert(lo <= n - 1 < hi);
            assert forall|i: int| 0 <= i < init.len() implies (lo <= i < hi - 1 <==> (
            #[trigger] init[i]).s == u) by {
                assert(init[i] == edges[i]);
            }
            lemma_out_links(init, u, lo, hi - 1);
            let before = Seq::new((hi - 1 - lo) as nat, |j: int| link_of(init[lo + j]));
            assert(before.push(link_of(edges.last())) =~= want);
        } else {
            assert(!(lo <= n - 1 < hi));
            if lo < hi {
                assert forall|i: int| 0 <= i < init.len() implies (lo <= i < hi <==> (
                #[trigger] init[i]).s == u) by {
                    assert(init[i] == edges[i]);
                }
                lemma_out_links(init, u, lo, hi);
                let before = Seq::new((hi - lo) as nat, |j: int| link_of(init[lo + j]));
                assert(before =~= want);
            } else {
                assert forall|i: int| 0 <= i < init.len() implies (0 <= i < 0 <==> (
                #[trigger] init[i]).s == u) by {
                    assert(init[i] == edges[i]);
                }
                lemma_out_links(init, u, 0, 0);
                let before = Seq::new(0 as nat, |j: int| link_of(init[0 + j]));
                assert(before =~= want);
            }
        }
    }
}

/// `ordslice::Ext::equal_range_by_key` on the start nodes of a list of edges
/// that is sorted by them: the positions `r.0 .. r.1` hold the edges that
/// start at `id`, those before start at lower nodes, those behind at higher
/// ones.
#[verifier::external_body]
fn equal_range_source(edges: &Vec<Edge>, id: u32) -> (r: (usize, usize))
    requires
        sorted_by_source(edges@),
    ensures
        r.0 <= r.1 <= edges@.len(),
        forall|i: int| 0 <= i < r.0 ==> (#[trigger] edges@[i]).s < id,
        forall|i: int| r.0 <= i < r.1 ==> (#[trigger] edges@[i]).s == id,
        forall|i: int| r.1 <= i < edges@.len() ==> (#[trigger] edges@[i]).s > id,
{
    let r = edges.as_slice().equal_range_by_key(&id, |e| e.source());
    (r.start, r.end)
}

/// The edges that start at node `id`, in the order of the list.
pub fn links(edges: &Vec<Edge>, id: u32) -> (r: (usize, usize))
    requires
        sorted_by_source(edges@),
    ensures
        r.0 <= r.1 <= edges@.len(),
        forall|i: int| 0 <= i < edges@.len() ==> (r.0 <= i < r.1 <==> (#[trigger] edges@[i]).s == id),
{
    equal_range_source(edges, id)
}

/// Whether the edges are sorted by the node they start at.
pub fn is_sorted_by_source(edges: &Vec<Edge>) -> (b: bool)
    ensures
        b == sorted_by_source(edges@),
{
    if edges.len() < 2 {
        return true;
    }
    let mut i: usize = 1;
    while i < edges.len()
        invariant
            1 <= i <= edges.len(),
            forall|a: int, b: int| 0 <= a <= b < i ==> (#[trigger] edges@[a]).s <= (
            #[trigger] edges@[b]).s,
        decreases edges.len() - i,
    {
        if edges[i - 1].s > edges[i].s {
            return false;
        }
        proof {
            assert forall|a: int, b: int| 0 <= a <= b < i + 1 implies (#[trigger] edges@[a]).s <= (
            #[trigger] edges@[b]).s by {
                if b == i && a < i {
                    assert(edges@[a].s <= edges@[i - 1].s);
                }
            }
        }
        i += 1;
    }
    true
}

/// The edges can make a graph of `node_len` nodes: they are sorted by their
/// start, there are no more nodes than keys, and every edge that starts at a
/// node of the graph ends at one.
pub open spec fn edges_fit(node_len: usize, edges: Seq<Edge>) -> bool {
    &&& node_len <= KEY_SPACE
    &&& sorted_by_source(edges)
    &&& forall|i: int| 0 <= i < edges.len() && (#[trigger] edges[i]).s < node_len ==> edges[i].t
        < node_len
}

/// The graph of `node_len` nodes whose arcs are the edges: at each node the
/// edges that start there, in the order of the list, and behind them the
/// reversals of the edges that end there. `None` where the edges do not
/// fit.
pub fn graph_of_edges(node_len: usize, edges: &Vec<Edge>) -> (r: Option<Graph>)
    ensures
        r is Some <==> edges_fit(node_len, edges@),
        match r {
            Some(g) => {
                &&& g.wf()
                &&& g.node_len == node_len
                &&& forall|u: int|
                    0 <= u < node_len ==> #[trigger] g.adj()[u] == out_links(edges@, u) + rev_upto(
                        rows_of(node_len, edges@),
                        node_len as int,
                        u,
                    )
            },
            None => true,
        },
{
    if node_len as u64 > KEY_SPACE || !is_sorted_by_source(edges) {
        return None;
    }
    let mut idx_links: Vec<Vec<IdxLink>> = Vec::with_capacity(node_len);
    let mut i: usize = 0;
    while i < node_len
        invariant
            node_len <= KEY_SPACE,
            sorted_by_source(edges@),
            i <= node_len,
            idx_links@.len() == i,
            forall|k: int| 0 <= k < edges@.len() && (#[trigger] edges@[k]).s < i ==> edges@[k].t
                < node_len,
            forall|u: int, j: int|
                0 <= u < i && 0 <= j < idx_links@[u]@.len() ==> (#[trigger] idx_links@[u]@[j])@.to
                    < node_len && idx_links@[u]@[j]@.dir == IdxLinkDir::Forward,
            forall|u: int| 0 <= u < i ==> links_view((#[trigger] idx_links@[u])@) == out_links(edges@, u),
        decreases node_len - i,
    {
        let (lo, hi) = links(edges, i as u32);
        let mut row: Vec<IdxLink> = Vec::with_capacity(hi - lo);
        let mut k: usize = lo;
        while k < hi
            invariant
                lo <= k <= hi <= edges@.len(),
                i < node_len,
                forall|x: int| lo <= x < hi ==> (#[trigger] edges@[x]).s == i,
                forall|j: int|
                    0 <= j < row@.len() ==> (#[trigger] row@[j])@.to < node_len && row@[j]@.dir
                        == IdxLinkDir::Forward,
                forall|x: int| lo <= x < k ==> (#[trigger] edges@[x]).t < node_len,
                row@.len() == k - lo,
                forall|j: int| 0 <= j < row@.len() ==> (#[trigger] row@[j])@ == link_of(edges@[lo + j]),
            decreases hi - k,
        {
            let link = edges[k];
            if link.t as usize >= node_len {
                assert(!edges_fit(node_len, edges@));
                return None;
            }
            let idx = IdxNodeKey(link.t);
            let cost = link.len;
            let ghost before = row@;
            row.push(IdxLink::new(idx, cost, IdxLinkDir::Forward));
            proof {
                assert forall|j: int| 0 <= j < row@.len() implies (#[trigger] row@[j])@.to
                    < node_len && row@[j]@.dir == IdxLinkDir::Forward && row@[j]@ == link_of(
                    edges@[lo + j],
                ) by {
                    if j < before.len() {
                        assert(row@[j] == before[j]);
                    }
                }
            }
            k += 1;
        }
        let ghost rows = idx_links@;
        proof {
            lemma_out_links(edges@, i as int, lo as int, hi as int);
            assert(links_view(row@) =~= out_links(edges@, i as int));
        }
        idx_links.push(row);
        proof {
            assert forall|u: int| 0 <= u < i + 1 implies links_view((#[trigger] idx_links@[u])@)
                == out_links(edges@, u) by {
                if u < i {
                    assert(idx_links@[u] == rows[u]);
                }
            }
            assert forall|u: int, j: int|
                0 <= u < i + 1 && 0 <= j < idx_links@[u]@.len() implies (
            #[trigger] idx_links@[u]@[j])@.to < node_len && idx_links@[u]@[j]@.dir
                == IdxLinkDir::Forward by {
                if u < i {
                    assert(idx_links@[u] == rows[u]);
                }
            }
            assert forall|x: int| 0 <= x < edges@.len() && (#[trigger] edges@[x]).s < i
                + 1 implies edges@[x].t < node_len by {
                if edges@[x].s == i {
                    assert(lo <= x < hi);
                }
            }
        }
        i += 1;
    }
    proof {
        let adj = adj_of(idx_links@);
        assert(adj =~= rows_of(node_len, edges@));
        assert forall|u: int| 0 <= u < adj.len() implies crate::adjacency::targets_within(
            #[trigger] adj[u],
            adj.len() as int,
        ) && crate::adjacency::all_dir(adj[u], IdxLinkDir::Forward) by {
            assert forall|j: int| 0 <= j < adj[u].len() implies 0 <= (#[trigger] adj[u][j]).to
                < adj.len() && adj[u][j].dir == IdxLinkDir::Forward by {
                assert(adj[u][j] == idx_links@[u]@[j]@);
            }
        }
    }
    Some(Graph::from_links(idx_links))
}

} // verus!
