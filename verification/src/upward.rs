//! The adjacency that queries run on: the arcs of the graph and the
//! shortcuts, each kept only at the end from which it leads upward.

use crate::adjacency::{adj_of, links_view, targets_within};
use crate::ch::shortcut_within;
use crate::graph::Graph;
use crate::network::{IdxLink, IdxLinkDir, LinkView, COST_SPAN};
use crate::shortcut::CHContraction;
use rayon::prelude::{IndexedParallelIterator, IntoParallelIterator, ParallelIterator};
use vstd::prelude::*;

verus! {

/// The links of the list that lead from node `u` to a node of higher rank.
pub open spec fn up(list: Seq<LinkView>, ranks: Seq<u32>, u: int) -> Seq<LinkView>
    decreases list.len(),
{
    if list.len() == 0 {
        Seq::empty()
    } else {
        let rest = up(list.drop_last(), ranks, u);
        if ranks[list.last().to] > ranks[u] {
            rest.push(list.last())
        } else {
            rest
        }
    }
}

/// The links of the list that have direction `dir`.
pub open spec fn side(list: Seq<LinkView>, dir: IdxLinkDir) -> Seq<LinkView>
    decreases list.len(),
{
    if list.len() == 0 {
        Seq::empty()
    } else {
        let rest = side(list.drop_last(), dir);
        if list.last().dir == dir {
            rest.push(list.last())
        } else {
            rest
        }
    }
}

/// The `Forward` links that the shortcuts give to node `u`: one for each
/// shortcut that starts there.
pub open spec fn arcs_from(shortcuts: Seq<CHContraction>, u: int) -> Seq<LinkView>
    decreases shortcuts.len(),
{
    if shortcuts.len() == 0 {
        Seq::empty()
    } else {
        let rest = arcs_from(shortcuts.drop_last(), u);
        let c = shortcuts.last();
        if c.snode_idx.0 == u {
            rest.push(
                LinkView {
                    to: c.enode_idx.0 as int,
                    cost: c.length as int,
                    dir: IdxLinkDir::Forward,
                },
            )
        } else {
            rest
        }
    }
}

/// The `Backward` links that the shortcuts give to node `u`: one for each
/// shortcut that ends there.
pub open spec fn arcs_into(shortcuts: Seq<CHContraction>, u: int) -> Seq<LinkView>
    decreases shortcuts.len(),
{
    if shortcuts.len() == 0 {
        Seq::empty()
    } else {
        let rest = arcs_into(shortcuts.drop_last(), u);
        let c = shortcuts.last();
        if c.enode_idx.0 == u {
            rest.push(
                LinkView {
                    to: c.snode_idx.0 as int,
                    cost: c.length as int,
                    dir: IdxLinkDir::Backward,
                },
            )
        } else {
            rest
        }
    }
}

/// The links of node `u` in the graph with the shortcuts: its own `Forward`
/// links, those of the shortcuts, its own `Backward` links, those of the
/// shortcuts.
pub open spec fn full_row(row: Seq<LinkView>, shortcuts: Seq<CHContraction>, u: int) -> Seq<
    LinkView,
> {
    side(row, IdxLinkDir::Forward) + arcs_from(shortcuts, u) + (side(row, IdxLinkDir::Backward)
        + arcs_into(shortcuts, u))
}

/// The links of node `u` that queries follow: of its own links and those of
/// the shortcuts, the ones that lead to a node of higher rank, `Forward`
/// links first.
pub open spec fn query_row(
    row: Seq<LinkView>,
    shortcuts: Seq<CHContraction>,
    ranks: Seq<u32>,
    u: int,
) -> Seq<LinkView> {
    up(side(row, IdxLinkDir::Forward) + arcs_from(shortcuts, u), ranks, u) + up(
        side(row, IdxLinkDir::Backward) + arcs_into(shortcuts, u),
        ranks,
        u,
    )
}

/// The adjacency that queries run on.
pub open spec fn query_adj(
    base: Seq<Seq<LinkView>>,
    shortcuts: Seq<CHContraction>,
    ranks: Seq<u32>,
) -> Seq<Seq<LinkView>> {
    Seq::new(base.len(), |u: int| query_row(base[u], shortcuts, ranks, u))
}

/// The graph with the shortcuts: every arc at both its ends.
pub open spec fn full_adj(base: Seq<Seq<LinkView>>, shortcuts: Seq<CHContraction>) -> Seq<
    Seq<LinkView>,
> {
    Seq::new(base.len(), |u: int| full_row(base[u], shortcuts, u))
}

/// The links of one direction are links of the list.
pub proof fn lemma_side_within(list: Seq<LinkView>, dir: IdxLinkDir, n: int)
    requires
        targets_within(list, n),
    ensures
        targets_within(side(list, dir), n),
        forall|i: int|
            0 <= i < side(list, dir).len() ==> (#[trigger] side(list, dir)[i]).dir == dir
                && list.contains(side(list, dir)[i]),
    decreases list.len(),
{
    if list.len() > 0 {
        let init = list.drop_last();
        assert forall|i: int| 0 <= i < init.len() implies 0 <= (#[trigger] init[i]).to < n by {
            assert(init[i] == list[i]);
        }
        lemma_side_within(init, dir, n);
        let rest = side(init, dir);
        let all = side(list, dir);
        assert forall|i: int| 0 <= i < all.len() implies (#[trigger] all[i]).dir == dir
            && list.contains(all[i]) && 0 <= all[i].to < n by {
            if i < rest.len() {
                assert(all[i] == rest[i]);
                assert(init.contains(rest[i]));
                let j = choose|j: int| 0 <= j < init.len() && init[j] == rest[i];
                assert(list[j] == rest[i]);
            } else {
                assert(all[i] == list[list.len() - 1]);
            }
        }
    }
}

/// The links that shortcuts give lead to nodes that the shortcuts name.
pub proof fn lemma_arcs_within(shortcuts: Seq<CHContraction>, u: int, n: int)
    requires
        forall|i: int| 0 <= i < shortcuts.len() ==> shortcut_within(#[trigger] shortcuts[i], n),
    ensures
        targets_within(arcs_from(shortcuts, u), n),
        targets_within(arcs_into(shortcuts, u), n),
    decreases shortcuts.len(),
{
    if shortcuts.len() > 0 {
        let init = shortcuts.drop_last();
        assert forall|i: int| 0 <= i < init.len() implies shortcut_within(#[trigger] init[i], n) by {
            assert(init[i] == shortcuts[i]);
        }
        lemma_arcs_within(init, u, n);
        assert(shortcut_within(shortcuts[shortcuts.len() - 1], n));
    }
}

/// The links of `v` that lead from node `i` to a node of higher rank.
pub fn keep_upward(i: usize, v: Vec<IdxLink>, order: &[u32]) -> (out: Vec<IdxLink>)
    requires
        i < order@.len(),
        targets_within(links_view(v@), order@.len() as int),
    ensures
        links_view(out@) == up(links_view(v@), order@, i as int),
{
    let ghost list = links_view(v@);
    let mut out: Vec<IdxLink> = Vec::new();
    let mut j: usize = 0;
    assert(list.take(0) =~= Seq::<LinkView>::empty());
    assert(links_view(out@) =~= Seq::<LinkView>::empty());
    while j < v.len()
        invariant
            list == links_view(v@),
            targets_within(list, order@.len() as int),
            i < order@.len(),
            j <= v.len(),
            links_view(out@) == up(list.take(j as int), order@, i as int),
        decreases v.len() - j,
    {
        let l = v[j];
        proof {
            assert(l@ == list[j as int]);
            assert(list.take(j + 1).drop_last() =~= list.take(j as int));
            assert(list.take(j + 1).last() == list[j as int]);
        }
        if order[l.enode_idx().index()] > order[i] {
            let ghost before = out@;
            out.push(l);
            assert(links_view(out@) =~= links_view(before).push(l@));
        }
        j += 1;
    }
    assert(list.take(v.len() as int) =~= list);
    out
}

/// `rayon`'s parallel `enumerate`, `map` and `collect` over the lists: what
/// `keep_upward` returns for each list and its position, at that position.
#[verifier::external_body]
fn par_keep_upward(links: Vec<Vec<IdxLink>>, order: &[u32]) -> (out: Vec<Vec<IdxLink>>)
    requires
        links@.len() <= order@.len(),
        in_range_of(links@, order@.len() as int),
    ensures
        out@.len() == links@.len(),
        forall|i: int|
            0 <= i < out@.len() ==> links_view(#[trigger] out@[i]@) == up(
                links_view(links@[i]@),
                order@,
                i,
            ),
{
    links.into_par_iter().enumerate().map(|(i, v)| keep_upward(i, v, order)).collect()
}

/// Every link of the lists leads to one of the first `n` nodes.
pub open spec fn in_range_of(rows: Seq<Vec<IdxLink>>, n: int) -> bool {
    forall|u: int| 0 <= u < rows.len() ==> targets_within(#[trigger] links_view(rows[u]@), n)
}

/// Of the links of each node, those that lead to a node of higher order.
pub fn filter_order(links: Vec<Vec<IdxLink>>, order: &[u32]) -> (out: Vec<Vec<IdxLink>>)
    requires
        links@.len() <= order@.len(),
        in_range_of(links@, order@.len() as int),
    ensures
        out@.len() == links@.len(),
        forall|i: int|
            0 <= i < out@.len() ==> links_view(#[trigger] out@[i]@) == up(
                links_view(links@[i]@),
                order@,
                i,
            ),
{
    par_keep_upward(links, order)
}

/// The shortcuts can be merged into a graph of `n` nodes: they name nodes of
/// the graph and their costs fit a link.
pub open spec fn shortcuts_fit(shortcuts: Seq<CHContraction>, n: int) -> bool {
    forall|i: int|
        0 <= i < shortcuts.len() ==> shortcut_within(#[trigger] shortcuts[i], n) && shortcuts[i].length
            < COST_SPAN
}

/// For each node the links of the first list followed by those of the
/// second.
pub fn joined_rows(first: &Vec<Vec<IdxLink>>, second: &Vec<Vec<IdxLink>>) -> (out: Vec<Vec<IdxLink>>)
    requires
        first@.len() == second@.len(),
    ensures
        out@.len() == first@.len(),
        forall|w: int| 0 <= w < out@.len() ==> (#[trigger] out@[w])@ == first@[w]@ + second@[w]@,
{
    let n = first.len();
    let mut out: Vec<Vec<IdxLink>> = Vec::with_capacity(n);
    let mut u: usize = 0;
    while u < n
        invariant
            n == first@.len(),
            n == second@.len(),
            u <= n,
            out@.len() == u,
            forall|w: int| 0 <= w < u ==> (#[trigger] out@[w])@ == first@[w]@ + second@[w]@,
        decreases n - u,
    {
        let a = &first[u];
        let b = &second[u];
        let mut row: Vec<IdxLink> = Vec::with_capacity(a.len());
        let mut i: usize = 0;
        while i < a.len()
            invariant
                i <= a.len(),
                row@ == a@.take(i as int),
            decreases a.len() - i,
        {
            row.push(a[i]);
            assert(a@.take(i + 1) =~= a@.take(i as int).push(a@[i as int]));
            i += 1;
        }
        assert(a@.take(a.len() as int) =~= a@);
        let mut j: usize = 0;
        while j < b.len()
            invariant
                j <= b.len(),
                row@ == a@ + b@.take(j as int),
            decreases b.len() - j,
        {
            row.push(b[j]);
            assert(a@ + b@.take(j + 1) =~= (a@ + b@.take(j as int)).push(b@[j as int]));
            j += 1;
        }
        assert(b@.take(b.len() as int) =~= b@);
        let ghost before = out@;
        out.push(row);
        assert forall|w: int| 0 <= w < u + 1 implies (#[trigger] out@[w])@ == first@[w]@
            + second@[w]@ by {
            if w < u {
                assert(out@[w] == before[w]);
            }
        }
        u += 1;
    }
    out
}

/// The links of a hierarchy, for its graph, ranks and shortcuts: first the
/// links of the graph with those of the shortcuts, every arc at both its
/// ends; second the links among them that queries follow, which lead to
/// nodes of higher rank.
pub fn assemble(graph: &Graph, order: &Vec<u32>, shortcuts: &Vec<CHContraction>) -> (out: (
    Vec<Vec<IdxLink>>,
    Vec<Vec<IdxLink>>,
))
    requires
        graph.wf(),
        order@.len() == graph.node_len,
        shortcuts_fit(shortcuts@, graph.node_len as int),
    ensures
        adj_of(out.0@) == full_adj(graph.adj(), shortcuts@),
        adj_of(out.1@) == query_adj(graph.adj(), shortcuts@, order@),
{
    let n = graph.node_len;
    let ghost base = graph.adj();
    let mut fwd: Vec<Vec<IdxLink>> = Vec::with_capacity(n);
    let mut bwd: Vec<Vec<IdxLink>> = Vec::with_capacity(n);
    let mut u: usize = 0;
    while u < n
        invariant
            graph.wf(),
            base == graph.adj(),
            n == graph.node_len,
            u <= n,
            fwd@.len() == u,
            bwd@.len() == u,
            forall|w: int|
                0 <= w < u ==> links_view(#[trigger] fwd@[w]@) == side(
                    base[w],
                    IdxLinkDir::Forward,
                ),
            forall|w: int|
                0 <= w < u ==> links_view(#[trigger] bwd@[w]@) == side(
                    base[w],
                    IdxLinkDir::Backward,
                ),
        decreases n - u,
    {
        let row = &graph.idx_links[u];
        let ghost list = base[u as int];
        let mut f: Vec<IdxLink> = Vec::new();
        let mut b: Vec<IdxLink> = Vec::new();
        let mut j: usize = 0;
        assert(list.take(0) =~= Seq::<LinkView>::empty());
        assert(links_view(f@) =~= Seq::<LinkView>::empty());
        assert(links_view(b@) =~= Seq::<LinkView>::empty());
        while j < row.len()
            invariant
                list == links_view(row@),
                j <= row.len(),
                links_view(f@) == side(list.take(j as int), IdxLinkDir::Forward),
                links_view(b@) == side(list.take(j as int), IdxLinkDir::Backward),
            decreases row.len() - j,
        {
            let l = row[j];
            proof {
                assert(l@ == list[j as int]);
                assert(list.take(j + 1).drop_last() =~= list.take(j as int));
                assert(list.take(j + 1).last() == list[j as int]);
            }
            if l.dir() == IdxLinkDir::Forward {
                let ghost before = f@;
                f.push(l);
                assert(links_view(f@) =~= links_view(before).push(l@));
            } else {
                let ghost before = b@;
                b.push(l);
                assert(links_view(b@) =~= links_view(before).push(l@));
            }
            j += 1;
        }
        assert(list.take(row.len() as int) =~= list);
        fwd.push(f);
        bwd.push(b);
        u += 1;
    }
    let mut i: usize = 0;
    proof {
        assert(shortcuts@.take(0) =~= Seq::<CHContraction>::empty());
        assert forall|w: int| 0 <= w < n implies links_view(#[trigger] fwd@[w]@) == side(
            base[w],
            IdxLinkDir::Forward,
        ) + arcs_from(shortcuts@.take(0), w) by {
            assert(side(base[w], IdxLinkDir::Forward) + Seq::<LinkView>::empty() =~= side(
                base[w],
                IdxLinkDir::Forward,
            ));
        }
        assert forall|w: int| 0 <= w < n implies links_view(#[trigger] bwd@[w]@) == side(
            base[w],
            IdxLinkDir::Backward,
        ) + arcs_into(shortcuts@.take(0), w) by {
            assert(side(base[w], IdxLinkDir::Backward) + Seq::<LinkView>::empty() =~= side(
                base[w],
                IdxLinkDir::Backward,
            ));
        }
    }
    while i < shortcuts.len()
        invariant
            n == graph.node_len,
            n == base.len(),
            shortcuts_fit(shortcuts@, n as int),
            i <= shortcuts.len(),
            fwd@.len() == n,
            bwd@.len() == n,
            forall|w: int|
                0 <= w < n ==> links_view(#[trigger] fwd@[w]@) == side(
                    base[w],
                    IdxLinkDir::Forward,
                ) + arcs_from(shortcuts@.take(i as int), w),
            forall|w: int|
                0 <= w < n ==> links_view(#[trigger] bwd@[w]@) == side(
                    base[w],
                    IdxLinkDir::Backward,
                ) + arcs_into(shortcuts@.take(i as int), w),
        decreases shortcuts.len() - i,
    {
        let c = shortcuts[i];
        assert(shortcut_within(shortcuts@[i as int], n as int));
        let ghost f0 = fwd@;
        let ghost b0 = bwd@;
        let fl = IdxLink::new(c.enode_idx, c.length, IdxLinkDir::Forward);
        let bl = IdxLink::new(c.snode_idx, c.length, IdxLinkDir::Backward);
        fwd[c.snode_idx.index()].push(fl);
        bwd[c.enode_idx.index()].push(bl);
        proof {
            let before = shortcuts@.take(i as int);
            let after = shortcuts@.take(i + 1);
            assert(after.drop_last() =~= before);
            assert(after.last() == c);
            assert forall|w: int| 0 <= w < n implies links_view(#[trigger] fwd@[w]@) == side(
                base[w],
                IdxLinkDir::Forward,
            ) + arcs_from(after, w) by {
                let own = side(base[w], IdxLinkDir::Forward);
                assert(links_view(f0[w]@) == own + arcs_from(before, w));
                if w == c.snode_idx.0 {
                    assert(fwd@[w]@ == f0[w]@.push(fl));
                    assert(links_view(fwd@[w]@) =~= links_view(f0[w]@).push(fl@));
                    assert((own + arcs_from(before, w)).push(fl@) =~= own + arcs_from(
                        before,
                        w,
                    ).push(fl@));
                } else {
                    assert(fwd@[w] == f0[w]);
                }
            }
            assert forall|w: int| 0 <= w < n implies links_view(#[trigger] bwd@[w]@) == side(
                base[w],
                IdxLinkDir::Backward,
            ) + arcs_into(after, w) by {
                let own = side(base[w], IdxLinkDir::Backward);
                assert(links_view(b0[w]@) == own + arcs_into(before, w));
                if w == c.enode_idx.0 {
                    assert(bwd@[w]@ == b0[w]@.push(bl));
                    assert(links_view(bwd@[w]@) =~= links_view(b0[w]@).push(bl@));
                    assert((own + arcs_into(before, w)).push(bl@) =~= own + arcs_into(
                        before,
                        w,
                    ).push(bl@));
                } else {
                    assert(bwd@[w] == b0[w]);
                }
            }
        }
        i += 1;
    }
    proof {
        assert(shortcuts@.take(shortcuts.len() as int) =~= shortcuts@);
        assert forall|w: int| 0 <= w < n implies targets_within(
            #[trigger] links_view(fwd@[w]@),
            n as int,
        ) && targets_within(links_view(bwd@[w]@), n as int) by {
            assert(targets_within(base[w], n as int));
            lemma_side_within(base[w], IdxLinkDir::Forward, n as int);
            lemma_side_within(base[w], IdxLinkDir::Backward, n as int);
            lemma_arcs_within(shortcuts@, w, n as int);
        }
        assert forall|w: int| 0 <= w < n implies targets_within(
            #[trigger] links_view(bwd@[w]@),
            n as int,
        ) by {
            assert(targets_within(links_view(fwd@[w]@), n as int));
        }
    }
    let ghost f1 = fwd@;
    let ghost b1 = bwd@;
    let full = joined_rows(&fwd, &bwd);
    proof {
        assert(adj_of(full@) =~= full_adj(base, shortcuts@)) by {
            assert forall|w: int| 0 <= w < n implies adj_of(full@)[w] == full_adj(
                base,
                shortcuts@,
            )[w] by {
                assert(full@[w]@ == f1[w]@ + b1[w]@);
                assert(links_view(full@[w]@) =~= links_view(f1[w]@) + links_view(b1[w]@));
            }
        }
    }
    let mut contractions = filter_order(fwd, order.as_slice());
    let mut contractions_rev = filter_order(bwd, order.as_slice());
    let mut k: usize = 0;
    while k < n
        invariant
            n == base.len(),
            k <= n,
            contractions@.len() == n,
            contractions_rev@.len() == n,
            forall|w: int|
                0 <= w < k ==> links_view(#[trigger] contractions@[w]@) == query_row(
                    base[w],
                    shortcuts@,
                    order@,
                    w,
                ),
            forall|w: int|
                k <= w < n ==> links_view(#[trigger] contractions@[w]@) == up(
                    side(base[w], IdxLinkDir::Forward) + arcs_from(shortcuts@, w),
                    order@,
                    w,
                ),
            forall|w: int|
                k <= w < n ==> links_view(#[trigger] contractions_rev@[w]@) == up(
                    side(base[w], IdxLinkDir::Backward) + arcs_into(shortcuts@, w),
                    order@,
                    w,
                ),
        decreases n - k,
    {
        let ghost c0 = contractions@;
        let ghost r0 = contractions_rev@;
        contractions[k].append(&mut contractions_rev[k]);
        proof {
            assert forall|w: int| 0 <= w < k + 1 implies links_view(#[trigger] contractions@[w]@)
                == query_row(base[w], shortcuts@, order@, w) by {
                if w == k {
                    assert(contractions@[w]@ == c0[w]@ + r0[w]@);
                    assert(links_view(contractions@[w]@) =~= links_view(c0[w]@) + links_view(
                        r0[w]@,
                    ));
                } else {
                    assert(contractions@[w] == c0[w]);
                }
            }
            assert forall|w: int| k + 1 <= w < n implies links_view(#[trigger] contractions@[w]@)
                == up(
                side(base[w], IdxLinkDir::Forward) + arcs_from(shortcuts@, w),
                order@,
                w,
            ) by {
                assert(contractions@[w] == c0[w]);
            }
            assert forall|w: int| k + 1 <= w < n implies links_view(
                #[trigger] contractions_rev@[w]@,
            ) == up(side(base[w], IdxLinkDir::Backward) + arcs_into(shortcuts@, w), order@, w) by {
                assert(contractions_rev@[w] == r0[w]);
            }
        }
        k += 1;
    }
    proof {
        assert(adj_of(contractions@) =~= query_adj(base, shortcuts@, order@)) by {
            assert forall|w: int| 0 <= w < n implies adj_of(contractions@)[w] == query_adj(
                base,
                shortcuts@,
                order@,
            )[w] by {
                assert(adj_of(contractions@)[w] == links_view(contractions@[w]@));
            }
        }
    }
    (full, contractions)
}

} // verus!
