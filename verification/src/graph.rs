//! The indexed graph: for every node its outgoing arcs as `Forward` links
//! and its incoming arcs as `Backward` links.

use crate::adjacency::{
    adj_of, all_dir, all_grouped, costs_to, grouped, in_range, lemma_costs_to_concat,
    lemma_costs_to_none, lemma_paired_is_mated, lemma_rev_upto, links_view, mated, paired,
    rev_of_list, rev_upto, targets_within,
};
use crate::network::{IdxLink, IdxLinkDir, IdxNodeKey, LinkView, KEY_SPACE};
use vstd::prelude::*;

verus! {

/// A directed graph with every arc held at both its ends.
pub struct Graph {
    pub node_len: usize,
    pub idx_links: Vec<Vec<IdxLink>>,
}

/// Taking one more link of a list adds its reversal when it leads to `v`.
proof fn lemma_rev_of_list_step(list: Seq<LinkView>, j: int, u: int, v: int)
    requires
        0 <= j < list.len(),
    ensures
        rev_of_list(list.take(j + 1), u, v) == if list[j].to == v {
            rev_of_list(list.take(j), u, v).push(
                LinkView { to: u, cost: list[j].cost, dir: IdxLinkDir::Backward },
            )
        } else {
            rev_of_list(list.take(j), u, v)
        },
{
    assert(list.take(j + 1).drop_last() =~= list.take(j));
    assert(list.take(j + 1).last() == list[j]);
}

/// For every node the reversals of the links that lead to it: a `Backward`
/// link to `u` of the same cost for each link at `u`, by rising `u` and, at
/// one node, in the order of its list.
pub fn map_rev(list: &[Vec<IdxLink>]) -> (rev: Vec<Vec<IdxLink>>)
    requires
        list@.len() <= KEY_SPACE,
        in_range(adj_of(list@)),
    ensures
        rev@.len() == list@.len(),
        forall|v: int|
            0 <= v < rev@.len() ==> links_view(#[trigger] rev@[v]@) == rev_upto(
                adj_of(list@),
                list@.len() as int,
                v,
            ),
{
    let len = list.len();
    let ghost adj = adj_of(list@);
    let mut rev: Vec<Vec<IdxLink>> = Vec::new();
    let mut k: usize = 0;
    while k < len
        invariant
            k <= len,
            rev@.len() == k,
            forall|v: int| 0 <= v < k ==> (#[trigger] rev@[v])@.len() == 0,
        decreases len - k,
    {
        rev.push(Vec::new());
        k += 1;
    }
    assert forall|v: int| 0 <= v < len implies links_view(#[trigger] rev@[v]@) == rev_upto(
        adj,
        0,
        v,
    ) by {
        assert(links_view(rev@[v]@) =~= Seq::<LinkView>::empty());
    }
    let mut from_idx: usize = 0;
    while from_idx < len
        invariant
            len == list@.len(),
            len <= KEY_SPACE,
            adj == adj_of(list@),
            in_range(adj),
            from_idx <= len,
            rev@.len() == len,
            forall|v: int|
                0 <= v < len ==> links_view(#[trigger] rev@[v]@) == rev_upto(
                    adj,
                    from_idx as int,
                    v,
                ),
        decreases len - from_idx,
    {
        let snode_idx = IdxNodeKey::new(from_idx);
        let links = &list[from_idx];
        let ghost row = adj[from_idx as int];
        assert(row == links_view(links@));
        assert(targets_within(row, len as int));
        assert forall|v: int| 0 <= v < len implies links_view(#[trigger] rev@[v]@) == rev_upto(
            adj,
            from_idx as int,
            v,
        ) + rev_of_list(row.take(0), from_idx as int, v) by {
            assert(row.take(0) =~= Seq::<LinkView>::empty());
            assert(rev_upto(adj, from_idx as int, v) + Seq::<LinkView>::empty() =~= rev_upto(
                adj,
                from_idx as int,
                v,
            ));
        }
        let mut j: usize = 0;
        while j < links.len()
            invariant
                row == links_view(links@),
                targets_within(row, len as int),
                snode_idx.0 == from_idx,
                from_idx < len,
                j <= links.len(),
                rev@.len() == len,
                forall|v: int|
                    0 <= v < len ==> links_view(#[trigger] rev@[v]@) == rev_upto(
                        adj,
                        from_idx as int,
                        v,
                    ) + rev_of_list(row.take(j as int), from_idx as int, v),
            decreases links.len() - j,
        {
            let link = links[j];
            assert(link@ == row[j as int]);
            let link_rev = IdxLink::new(snode_idx, link.cost(), IdxLinkDir::Backward);
            let to = link.enode_idx().index();
            let ghost before = rev@;
            rev[to].push(link_rev);
            proof {
                assert forall|v: int| 0 <= v < len implies links_view(#[trigger] rev@[v]@)
                    == rev_upto(adj, from_idx as int, v) + rev_of_list(
                    row.take(j + 1),
                    from_idx as int,
                    v,
                ) by {
                    lemma_rev_of_list_step(row, j as int, from_idx as int, v);
                    let base = rev_upto(adj, from_idx as int, v);
                    let part = rev_of_list(row.take(j as int), from_idx as int, v);
                    assert(links_view(before[v]@) == base + part);
                    if v == to {
                        assert(rev@[v]@ == before[v]@.push(link_rev));
                        assert(links_view(rev@[v]@) =~= links_view(before[v]@).push(link_rev@));
                        assert((base + part).push(link_rev@) =~= base + part.push(link_rev@));
                    } else {
                        assert(rev@[v] == before[v]);
                    }
                }
            }
            j += 1;
        }
        proof {
            assert(row.take(links.len() as int) =~= row);
        }
        from_idx += 1;
    }
    rev
}

impl Graph {
    /// What the graph's links say, node by node.
    pub open spec fn adj(&self) -> Seq<Seq<LinkView>> {
        adj_of(self.idx_links@)
    }

    /// The graph has a list for each node and at most as many nodes as there
    /// are keys; its links lead to its nodes; in each list the `Forward`
    /// links come first; and every arc stands at both its ends.
    pub open spec fn wf(&self) -> bool {
        &&& self.node_len == self.idx_links@.len()
        &&& self.node_len <= KEY_SPACE
        &&& in_range(self.adj())
        &&& all_grouped(self.adj())
        &&& paired(self.adj())
    }

    /// Lists of outgoing arcs that a graph can be made of: at most as many
    /// as there are keys, of `Forward` links that lead to listed nodes.
    pub open spec fn accepts(rows: Seq<Vec<IdxLink>>) -> bool {
        &&& rows.len() <= KEY_SPACE
        &&& in_range(adj_of(rows))
        &&& forall|u: int|
            0 <= u < rows.len() ==> all_dir(#[trigger] adj_of(rows)[u], IdxLinkDir::Forward)
    }

    /// Whether a graph can be made of the lists.
    pub fn valid_links(idx_links: &Vec<Vec<IdxLink>>) -> (ok: bool)
        ensures
            ok == Self::accepts(idx_links@),
    {
        let len = idx_links.len();
        if len as u64 > KEY_SPACE {
            return false;
        }
        let ghost adj = adj_of(idx_links@);
        let mut u: usize = 0;
        while u < len
            invariant
                len == idx_links@.len(),
                adj == adj_of(idx_links@),
                u <= len,
                forall|w: int| 0 <= w < u ==> targets_within(#[trigger] adj[w], len as int),
                forall|w: int| 0 <= w < u ==> all_dir(#[trigger] adj[w], IdxLinkDir::Forward),
            decreases len - u,
        {
            let links = &idx_links[u];
            let mut j: usize = 0;
            while j < links.len()
                invariant
                    u < len,
                    len == idx_links@.len(),
                    adj == adj_of(idx_links@),
                    adj[u as int] == links_view(links@),
                    j <= links.len(),
                    forall|i: int| 0 <= i < j ==> 0 <= (#[trigger] adj[u as int][i]).to < len,
                    forall|i: int|
                        0 <= i < j ==> (#[trigger] adj[u as int][i]).dir == IdxLinkDir::Forward,
                decreases links.len() - j,
            {
                let link = links[j];
                assert(link@ == adj[u as int][j as int]);
                if link.enode_idx().index() >= len || link.dir() != IdxLinkDir::Forward {
                    assert(!(targets_within(adj[u as int], len as int) && all_dir(
                        adj[u as int],
                        IdxLinkDir::Forward,
                    )));
                    return false;
                }
                j += 1;
            }
            u += 1;
        }
        true
    }

    /// The graph of the given outgoing arcs: to the list of each node the
    /// reversals of the arcs that lead to it are added, behind its own.
    pub fn from_links(idx_links: Vec<Vec<IdxLink>>) -> (graph: Self)
        requires
            Self::accepts(idx_links@),
        ensures
            graph.wf(),
            graph.node_len == idx_links@.len(),
            forall|u: int|
                0 <= u < graph.node_len ==> #[trigger] graph.adj()[u] == adj_of(idx_links@)[u]
                    + rev_upto(adj_of(idx_links@), idx_links@.len() as int, u),
            mated(graph.adj()),
    {
        let mut idx_links = idx_links;
        let len = idx_links.len();
        let ghost given = adj_of(idx_links@);
        let mut idx_links_rev = map_rev(idx_links.as_slice());
        let ghost revs = adj_of(idx_links_rev@);
        assert forall|v: int| 0 <= v < len implies #[trigger] revs[v] == rev_upto(
            given,
            len as int,
            v,
        ) by {
            assert(revs[v] == links_view(idx_links_rev@[v]@));
        }
        let mut i: usize = 0;
        while i < len
            invariant
                i <= len,
                len == idx_links@.len(),
                len == idx_links_rev@.len(),
                len == given.len(),
                forall|v: int|
                    0 <= v < i ==> #[trigger] adj_of(idx_links@)[v] == given[v] + rev_upto(
                        given,
                        len as int,
                        v,
                    ),
                forall|v: int| i <= v < len ==> #[trigger] adj_of(idx_links@)[v] == given[v],
                forall|v: int|
                    i <= v < len ==> links_view(#[trigger] idx_links_rev@[v]@) == rev_upto(
                        given,
                        len as int,
                        v,
                    ),
            decreases len - i,
        {
            let ghost rows = idx_links@;
            let ghost back = idx_links_rev@;
            idx_links[i].append(&mut idx_links_rev[i]);
            proof {
                assert forall|v: int| 0 <= v < i + 1 implies #[trigger] adj_of(idx_links@)[v]
                    == given[v] + rev_upto(given, len as int, v) by {
                    if v == i {
                        assert(idx_links@[v]@ == rows[v]@ + back[v]@);
                        assert(adj_of(rows)[v] == given[v]);
                        assert(links_view(idx_links@[v]@) =~= links_view(rows[v]@) + links_view(
                            back[v]@,
                        ));
                    } else {
                        assert(idx_links@[v] == rows[v]);
                        assert(adj_of(rows)[v] == given[v] + rev_upto(given, len as int, v));
                    }
                }
                assert forall|v: int| i + 1 <= v < len implies #[trigger] adj_of(idx_links@)[v]
                    == given[v] by {
                    assert(idx_links@[v] == rows[v]);
                    assert(adj_of(rows)[v] == given[v]);
                }
                assert forall|v: int| i + 1 <= v < len implies links_view(
                    #[trigger] idx_links_rev@[v]@,
                ) == rev_upto(given, len as int, v) by {
                    assert(idx_links_rev@[v] == back[v]);
                }
            }
            i += 1;
        }
        let graph = Self { node_len: len, idx_links };
        proof {
            lemma_joined_is_well_formed(given, graph.adj());
            lemma_paired_is_mated(graph.adj());
        }
        graph
    }
}

/// Lists of `Forward` links, each followed by the reversals of the links that
/// lead to its node, hold every arc at both ends, `Forward` links first.
pub proof fn lemma_joined_is_well_formed(given: Seq<Seq<LinkView>>, adj: Seq<Seq<LinkView>>)
    requires
        in_range(given),
        forall|u: int| 0 <= u < given.len() ==> all_dir(#[trigger] given[u], IdxLinkDir::Forward),
        adj.len() == given.len(),
        forall|u: int|
            0 <= u < given.len() ==> #[trigger] adj[u] == given[u] + rev_upto(
                given,
                given.len() as int,
                u,
            ),
    ensures
        in_range(adj),
        all_grouped(adj),
        paired(adj),
{
    let n = given.len() as int;
    assert forall|u: int| 0 <= u < n implies targets_within(#[trigger] adj[u], n) && grouped(
        adj[u],
    ) by {
        lemma_rev_upto(given, n, 0, u);
        assert(targets_within(given[u], n));
        let back = rev_upto(given, n, u);
        assert forall|i: int| 0 <= i < adj[u].len() implies 0 <= (#[trigger] adj[u][i]).to < n by {
            if i < given[u].len() {
                assert(adj[u][i] == given[u][i]);
            } else {
                assert(adj[u][i] == back[i - given[u].len()]);
            }
        }
        assert forall|i: int, j: int|
            0 <= i < j < adj[u].len() && (#[trigger] adj[u][i]).dir
                == IdxLinkDir::Backward implies (#[trigger] adj[u][j]).dir
            == IdxLinkDir::Backward by {
            if i < given[u].len() {
                assert(adj[u][i] == given[u][i]);
            } else {
                assert(adj[u][j] == back[j - given[u].len()]);
            }
        }
    }
    assert forall|u: int, v: int| 0 <= u < n && 0 <= v < n implies #[trigger] costs_to(
        adj[u],
        v,
        IdxLinkDir::Forward,
    ) == costs_to(adj[v], u, IdxLinkDir::Backward) by {
        let f = IdxLinkDir::Forward;
        let b = IdxLinkDir::Backward;
        lemma_rev_upto(given, n, 0, u);
        lemma_rev_upto(given, n, u, v);
        lemma_costs_to_concat(given[u], rev_upto(given, n, u), v, f);
        lemma_costs_to_none(rev_upto(given, n, u), v, f);
        lemma_costs_to_concat(given[v], rev_upto(given, n, v), u, b);
        lemma_costs_to_none(given[v], u, b);
        assert(costs_to(given[u], v, f) + Seq::<int>::empty() =~= costs_to(given[u], v, f));
        assert(Seq::<int>::empty() + costs_to(given[u], v, f) =~= costs_to(given[u], v, f));
    }
}

} // verus!
