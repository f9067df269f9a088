//! What a query unpacks is a way of the graph: every shortcut falls into two
//! arcs, and these again, down to links of the graph.

use crate::adjacency::has_link;
use crate::arcs::{lemma_full_row, lemma_query_row, spanned};
use crate::ch::shortcut_within;
use crate::faithful::{framed, lemma_linked, trim};
use crate::hierarchy::shortcut_ok;
use crate::network::{IdxLinkDir, IdxNodeKey, LinkView};
use crate::paths::{is_way, lemma_way_concat, lemma_way_extend, lemma_way_steps, nodes_of, step};
use crate::scoring::spans;
use crate::shortcut::CHContraction;
use crate::unpack::{best, expansion, fits, hops, lemma_best_upto, pair_rank, unfolded, unpackable};
use crate::upward::{full_adj, query_adj};
use vstd::prelude::*;

verus! {

/// The array has an arc from `a` to `b`.
pub open spec fn arc(adj: Seq<Seq<LinkView>>, a: int, b: int) -> bool {
    exists|c: int| step(adj, IdxLinkDir::Forward, a, b, c)
}

/// The nodes make a way along the arcs, whatever it costs.
pub open spec fn walks(adj: Seq<Seq<LinkView>>, nodes: Seq<int>) -> bool {
    exists|c: int| is_way(adj, IdxLinkDir::Forward, nodes, c)
}

/// From each node of the list to the next there is an arc.
pub open spec fn chained(adj: Seq<Seq<LinkView>>, path: Seq<IdxNodeKey>) -> bool {
    forall|i: int|
        0 <= i < path.len() - 1 ==> arc(adj, (#[trigger] path[i]).0 as int, path[i + 1].0 as int)
}

/// The shortcut falls into an arc from its start to the node it names and
/// an arc from there to its end, which cost together what it costs.
pub open spec fn split(full: Seq<Seq<LinkView>>, c: CHContraction) -> bool {
    exists|c1: int, c2: int|
        #[trigger] step(
            full,
            IdxLinkDir::Forward,
            c.snode_idx.0 as int,
            c.mnode_idx.0 as int,
            c1,
        ) && #[trigger] step(full, IdxLinkDir::Forward, c.mnode_idx.0 as int, c.enode_idx.0 as int, c2)
            && c1 + c2 == c.length
}

/// Every shortcut falls into two arcs of the graph with the shortcuts.
pub open spec fn decomposed(base: Seq<Seq<LinkView>>, shortcuts: Seq<CHContraction>) -> bool {
    forall|i: int|
        0 <= i < shortcuts.len() ==> split(full_adj(base, shortcuts), #[trigger] shortcuts[i])
}

/// What a hop from `a` to `b` over an arc of the graph with its shortcuts
/// unpacks to is, with `b` at its end, a way of the graph from `a`.
pub proof fn lemma_expansion_walks(
    base: Seq<Seq<LinkView>>,
    shortcuts: Seq<CHContraction>,
    ranks: Seq<u32>,
    a: IdxNodeKey,
    b: IdxNodeKey,
)
    requires
        unpackable(ranks, shortcuts),
        ranks.len() == base.len(),
        a.0 < ranks.len(),
        b.0 < ranks.len(),
        decomposed(base, shortcuts),
        arc(full_adj(base, shortcuts), a.0 as int, b.0 as int),
    ensures
        expansion(shortcuts, ranks, a, b).len() >= 1,
        expansion(shortcuts, ranks, a, b)[0] == a,
        walks(base, nodes_of(expansion(shortcuts, ranks, a, b)).push(b.0 as int)),
    decreases pair_rank(ranks, a, b),
{
    let fw = IdxLinkDir::Forward;
    let full = full_adj(base, shortcuts);
    let out = expansion(shortcuts, ranks, a, b);
    lemma_best_upto(shortcuts, a, b, shortcuts.len() as int);
    match best(shortcuts, a, b) {
        None => {
            let c = choose|c: int| step(full, fw, a.0 as int, b.0 as int, c);
            lemma_full_row(base[a.0 as int], shortcuts, a.0 as int, b.0 as int, c, fw);
            if spanned(shortcuts, a.0 as int, b.0 as int, c) {
                let i = choose|i: int|
                    0 <= i < shortcuts.len() && spans(
                        #[trigger] shortcuts[i],
                        a.0 as int,
                        b.0 as int,
                        c,
                    );
                assert(fits(shortcuts[i], a, b));
            }
            assert(step(base, fw, a.0 as int, b.0 as int, c));
            let one = seq![a.0 as int];
            assert(is_way(base, fw, one, 0));
            lemma_way_extend(base, fw, one, 0, b.0 as int, c);
            assert(out =~= seq![a]);
            assert(nodes_of(out).push(b.0 as int) =~= one.push(b.0 as int));
        },
        Some(i) => {
            let m = shortcuts[i].mnode_idx;
            assert(shortcut_ok(ranks, shortcuts[i]));
            assert(shortcut_within(shortcuts[i], ranks.len() as int));
            assert(split(full, shortcuts[i]));
            let (d1, d2) = choose|d1: int, d2: int|
                #[trigger] step(full, fw, a.0 as int, m.0 as int, d1) && #[trigger] step(
                    full,
                    fw,
                    m.0 as int,
                    b.0 as int,
                    d2,
                ) && d1 + d2 == shortcuts[i].length;
            assert(arc(full, a.0 as int, m.0 as int));
            assert(arc(full, m.0 as int, b.0 as int));
            lemma_expansion_walks(base, shortcuts, ranks, a, m);
            lemma_expansion_walks(base, shortcuts, ranks, m, b);
            let first = expansion(shortcuts, ranks, a, m);
            let second = expansion(shortcuts, ranks, m, b);
            let w1 = nodes_of(first).push(m.0 as int);
            let w2 = nodes_of(second).push(b.0 as int);
            let c1 = choose|c: int| is_way(base, fw, w1, c);
            let c2 = choose|c: int| is_way(base, fw, w2, c);
            assert(w2[0] == second[0].0);
            lemma_way_concat(base, fw, w1, c1, w2, c2);
            assert(out == first + second);
            assert(w1.drop_last() + w2 =~= nodes_of(out).push(b.0 as int));
            assert(out[0] == first[0]);
        },
    }
}

/// What a list of nodes with an arc from each to the next unpacks to is a
/// way of the graph from its first node to its last.
pub proof fn lemma_unfolded_walks(
    base: Seq<Seq<LinkView>>,
    shortcuts: Seq<CHContraction>,
    ranks: Seq<u32>,
    path: Seq<IdxNodeKey>,
)
    requires
        unpackable(ranks, shortcuts),
        ranks.len() == base.len(),
        path.len() >= 1,
        forall|i: int| 0 <= i < path.len() ==> (#[trigger] path[i]).0 < ranks.len(),
        decomposed(base, shortcuts),
        chained(full_adj(base, shortcuts), path),
    ensures
        unfolded(shortcuts, ranks, path).len() >= 1,
        unfolded(shortcuts, ranks, path)[0] == path[0],
        unfolded(shortcuts, ranks, path).last() == path.last(),
        walks(base, nodes_of(unfolded(shortcuts, ranks, path))),
    decreases path.len(),
{
    let fw = IdxLinkDir::Forward;
    let full = full_adj(base, shortcuts);
    let out = unfolded(shortcuts, ranks, path);
    let n = path.len() as int;
    if n == 1 {
        assert(hops(shortcuts, ranks, path) =~= Seq::<IdxNodeKey>::empty());
        assert(out =~= seq![path[0]]);
        assert(nodes_of(out) =~= seq![path[0].0 as int]);
        assert(is_way(base, fw, nodes_of(out), 0));
    } else {
        let init = path.drop_last();
        let a = path[n - 2];
        let b = path[n - 1];
        assert forall|i: int| 0 <= i < init.len() implies (#[trigger] init[i]).0 < ranks.len() by {
            assert(init[i] == path[i]);
        }
        assert forall|i: int| 0 <= i < init.len() - 1 implies arc(
            full,
            (#[trigger] init[i]).0 as int,
            init[i + 1].0 as int,
        ) by {
            assert(init[i] == path[i] && init[i + 1] == path[i + 1]);
        }
        lemma_unfolded_walks(base, shortcuts, ranks, init);
        assert(arc(full, path[n - 2].0 as int, path[n - 2 + 1].0 as int));
        lemma_expansion_walks(base, shortcuts, ranks, a, b);
        let before = unfolded(shortcuts, ranks, init);
        let last = expansion(shortcuts, ranks, a, b);
        let w1 = nodes_of(before);
        let w2 = nodes_of(last).push(b.0 as int);
        let c1 = choose|c: int| is_way(base, fw, w1, c);
        let c2 = choose|c: int| is_way(base, fw, w2, c);
        assert(init.last() == a);
        assert(w1.last() == before.last().0);
        assert(w2[0] == last[0].0);
        lemma_way_concat(base, fw, w1, c1, w2, c2);
        assert(before == hops(shortcuts, ranks, init) + seq![a]);
        assert(out == hops(shortcuts, ranks, init) + last + seq![b]);
        assert(w1.drop_last() + w2 =~= nodes_of(out));
        if hops(shortcuts, ranks, init).len() > 0 {
            assert(out[0] == before[0]);
        } else {
            assert(before[0] == a);
            assert(out[0] == last[0]);
        }
    }
}

/// Where a way up along the arcs and a way up against them end at the same
/// node, the first followed by the second read from its end has an arc of
/// the graph with its shortcuts from each node to the next.
pub proof fn lemma_meeting_chained(
    base: Seq<Seq<LinkView>>,
    shortcuts: Seq<CHContraction>,
    ranks: Seq<u32>,
    up: Seq<IdxNodeKey>,
    down: Seq<IdxNodeKey>,
    a: int,
    b: int,
)
    requires
        framed(base, shortcuts, ranks),
        up.len() >= 1,
        down.len() >= 1,
        is_way(query_adj(base, shortcuts, ranks), IdxLinkDir::Forward, nodes_of(up), a),
        is_way(query_adj(base, shortcuts, ranks), IdxLinkDir::Backward, nodes_of(down), b),
        up.last() == down.last(),
    ensures
        chained(full_adj(base, shortcuts), up.drop_last() + down.reverse()),
{
    let q = query_adj(base, shortcuts, ranks);
    let full = full_adj(base, shortcuts);
    let fw = IdxLinkDir::Forward;
    let bw = IdxLinkDir::Backward;
    let path = up.drop_last() + down.reverse();
    let ul = up.len() as int;
    let dl = down.len() as int;
    assert forall|i: int| 0 <= i < path.len() - 1 implies arc(
        full,
        (#[trigger] path[i]).0 as int,
        path[i + 1].0 as int,
    ) by {
        if i < ul - 1 {
            let w = lemma_way_steps(q, fw, nodes_of(up), a, i);
            let x = up[i].0 as int;
            let y = up[i + 1].0 as int;
            assert(nodes_of(up)[i] == x && nodes_of(up)[i + 1] == y);
            assert(path[i] == up[i]);
            if i + 1 < ul - 1 {
                assert(path[i + 1] == up[i + 1]);
            } else {
                assert(path[i + 1] == down.reverse()[0]);
                assert(down.reverse()[0] == down[dl - 1]);
            }
            lemma_query_row(base[x], shortcuts, ranks, x, y, w, fw);
            lemma_full_row(base[x], shortcuts, x, y, w, fw);
            assert(step(full, fw, x, y, w));
        } else {
            let j = i - (ul - 1);
            let k = dl - 2 - j;
            assert(path[i] == down.reverse()[j]);
            assert(path[i + 1] == down.reverse()[j + 1]);
            assert(down.reverse()[j] == down[dl - 1 - j]);
            assert(down.reverse()[j + 1] == down[dl - 2 - j]);
            let w = lemma_way_steps(q, bw, nodes_of(down), b, k);
            let x = down[k].0 as int;
            let y = down[k + 1].0 as int;
            assert(nodes_of(down)[k] == x && nodes_of(down)[k + 1] == y);
            lemma_query_row(base[x], shortcuts, ranks, x, y, w, bw);
            lemma_linked(base, shortcuts, ranks, x, y, w, bw);
            lemma_full_row(base[y], shortcuts, y, x, w, fw);
            assert(step(full, fw, y, x, w));
        }
    }
}

/// The nodes make a way along the arcs that costs no more than `q`.
pub open spec fn walks_within(adj: Seq<Seq<LinkView>>, nodes: Seq<int>, q: int) -> bool {
    exists|c: int| c <= q && #[trigger] is_way(adj, IdxLinkDir::Forward, nodes, c)
}

/// What a hop from `a` to `b` over an arc of cost `q` of the graph with its
/// shortcuts unpacks to is, with `b` at its end, a way of the graph from
/// `a` that costs no more than `q`, where no shortcut costs more than a
/// link between the same nodes.
pub proof fn lemma_expansion_costs(
    base: Seq<Seq<LinkView>>,
    shortcuts: Seq<CHContraction>,
    ranks: Seq<u32>,
    a: IdxNodeKey,
    b: IdxNodeKey,
    q: int,
)
    requires
        unpackable(ranks, shortcuts),
        ranks.len() == base.len(),
        a.0 < ranks.len(),
        b.0 < ranks.len(),
        decomposed(base, shortcuts),
        trim(base, shortcuts),
        step(full_adj(base, shortcuts), IdxLinkDir::Forward, a.0 as int, b.0 as int, q),
    ensures
        expansion(shortcuts, ranks, a, b).len() >= 1,
        expansion(shortcuts, ranks, a, b)[0] == a,
        walks_within(base, nodes_of(expansion(shortcuts, ranks, a, b)).push(b.0 as int), q),
    decreases pair_rank(ranks, a, b),
{
    let fw = IdxLinkDir::Forward;
    let full = full_adj(base, shortcuts);
    let out = expansion(shortcuts, ranks, a, b);
    lemma_best_upto(shortcuts, a, b, shortcuts.len() as int);
    lemma_full_row(base[a.0 as int], shortcuts, a.0 as int, b.0 as int, q, fw);
    match best(shortcuts, a, b) {
        None => {
            if spanned(shortcuts, a.0 as int, b.0 as int, q) {
                let i = choose|i: int|
                    0 <= i < shortcuts.len() && spans(
                        #[trigger] shortcuts[i],
                        a.0 as int,
                        b.0 as int,
                        q,
                    );
                assert(fits(shortcuts[i], a, b));
            }
            assert(step(base, fw, a.0 as int, b.0 as int, q));
            let one = seq![a.0 as int];
            assert(is_way(base, fw, one, 0));
            lemma_way_extend(base, fw, one, 0, b.0 as int, q);
            assert(out =~= seq![a]);
            assert(nodes_of(out).push(b.0 as int) =~= one.push(b.0 as int));
            assert(q <= q && is_way(base, fw, nodes_of(out).push(b.0 as int), q));
        },
        Some(i) => {
            let m = shortcuts[i].mnode_idx;
            let len = shortcuts[i].length as int;
            assert(shortcut_ok(ranks, shortcuts[i]));
            assert(shortcut_within(shortcuts[i], ranks.len() as int));
            // the best shortcut costs no more than the arc
            if spanned(shortcuts, a.0 as int, b.0 as int, q) {
                let j = choose|j: int|
                    0 <= j < shortcuts.len() && spans(
                        #[trigger] shortcuts[j],
                        a.0 as int,
                        b.0 as int,
                        q,
                    );
                assert(fits(shortcuts[j], a, b));
                crate::unpack::lemma_best_least(shortcuts, a, b, shortcuts.len() as int, j);
            } else {
                assert(has_link(base[a.0 as int], b.0 as int, q, fw));
                assert(has_link(
                    base[shortcuts[i].snode_idx.0 as int],
                    shortcuts[i].enode_idx.0 as int,
                    q,
                    fw,
                ));
            }
            assert(len <= q);
            assert(split(full, shortcuts[i]));
            let (d1, d2) = choose|d1: int, d2: int|
                #[trigger] step(full, fw, a.0 as int, m.0 as int, d1) && #[trigger] step(
                    full,
                    fw,
                    m.0 as int,
                    b.0 as int,
                    d2,
                ) && d1 + d2 == shortcuts[i].length;
            lemma_expansion_costs(base, shortcuts, ranks, a, m, d1);
            lemma_expansion_costs(base, shortcuts, ranks, m, b, d2);
            let first = expansion(shortcuts, ranks, a, m);
            let second = expansion(shortcuts, ranks, m, b);
            let w1 = nodes_of(first).push(m.0 as int);
            let w2 = nodes_of(second).push(b.0 as int);
            let c1 = choose|c: int| c <= d1 && #[trigger] is_way(base, fw, w1, c);
            let c2 = choose|c: int| c <= d2 && #[trigger] is_way(base, fw, w2, c);
            assert(w2[0] == second[0].0);
            lemma_way_concat(base, fw, w1, c1, w2, c2);
            assert(out == first + second);
            assert(w1.drop_last() + w2 =~= nodes_of(out).push(b.0 as int));
            assert(out[0] == first[0]);
            assert(c1 + c2 <= q && is_way(base, fw, nodes_of(out).push(b.0 as int), c1 + c2));
        },
    }
}

/// What a way over the graph with its shortcuts unpacks to is a way of the
/// graph between the same nodes that costs no more.
pub proof fn lemma_unfolded_costs(
    base: Seq<Seq<LinkView>>,
    shortcuts: Seq<CHContraction>,
    ranks: Seq<u32>,
    path: Seq<IdxNodeKey>,
    q: int,
)
    requires
        unpackable(ranks, shortcuts),
        ranks.len() == base.len(),
        path.len() >= 1,
        forall|i: int| 0 <= i < path.len() ==> (#[trigger] path[i]).0 < ranks.len(),
        decomposed(base, shortcuts),
        trim(base, shortcuts),
        is_way(full_adj(base, shortcuts), IdxLinkDir::Forward, nodes_of(path), q),
    ensures
        unfolded(shortcuts, ranks, path).len() >= 1,
        unfolded(shortcuts, ranks, path)[0] == path[0],
        unfolded(shortcuts, ranks, path).last() == path.last(),
        walks_within(base, nodes_of(unfolded(shortcuts, ranks, path)), q),
    decreases path.len(),
{
    let fw = IdxLinkDir::Forward;
    let full = full_adj(base, shortcuts);
    let out = unfolded(shortcuts, ranks, path);
    let n = path.len() as int;
    let nodes = nodes_of(path);
    if n == 1 {
        assert(hops(shortcuts, ranks, path) =~= Seq::<IdxNodeKey>::empty());
        assert(out =~= seq![path[0]]);
        assert(nodes_of(out) =~= seq![path[0].0 as int]);
        assert(q == 0);
        assert(0 <= q && is_way(base, fw, nodes_of(out), 0));
    } else {
        let init = path.drop_last();
        let a = path[n - 2];
        let b = path[n - 1];
        let w = choose|w: int|
            #[trigger] step(full, fw, nodes[n - 2], nodes.last(), w) && is_way(
                full,
                fw,
                nodes.drop_last(),
                q - w,
            );
        assert(nodes.drop_last() =~= nodes_of(init));
        assert forall|i: int| 0 <= i < init.len() implies (#[trigger] init[i]).0 < ranks.len() by {
            assert(init[i] == path[i]);
        }
        lemma_unfolded_costs(base, shortcuts, ranks, init, q - w);
        assert(nodes[n - 2] == a.0 && nodes.last() == b.0);
        lemma_expansion_costs(base, shortcuts, ranks, a, b, w);
        let before = unfolded(shortcuts, ranks, init);
        let last = expansion(shortcuts, ranks, a, b);
        let w1 = nodes_of(before);
        let w2 = nodes_of(last).push(b.0 as int);
        let c1 = choose|c: int| c <= q - w && #[trigger] is_way(base, fw, w1, c);
        let c2 = choose|c: int| c <= w && #[trigger] is_way(base, fw, w2, c);
        assert(init.last() == a);
        assert(w1.last() == before.last().0);
        assert(w2[0] == last[0].0);
        lemma_way_concat(base, fw, w1, c1, w2, c2);
        assert(before == hops(shortcuts, ranks, init) + seq![a]);
        assert(out == hops(shortcuts, ranks, init) + last + seq![b]);
        assert(w1.drop_last() + w2 =~= nodes_of(out));
        if hops(shortcuts, ranks, init).len() > 0 {
            assert(out[0] == before[0]);
        } else {
            assert(before[0] == a);
            assert(out[0] == last[0]);
        }
        assert(c1 + c2 <= q && is_way(base, fw, nodes_of(out), c1 + c2));
    }
}

/// Where a way up along the arcs and a way up against them end at the same
/// node, the first followed by the second read from its end is a way over
/// the graph with its shortcuts that costs what both cost.
pub proof fn lemma_meeting_way(
    base: Seq<Seq<LinkView>>,
    shortcuts: Seq<CHContraction>,
    ranks: Seq<u32>,
    up: Seq<IdxNodeKey>,
    down: Seq<IdxNodeKey>,
    a: int,
    b: int,
)
    requires
        framed(base, shortcuts, ranks),
        up.len() >= 1,
        down.len() >= 1,
        is_way(query_adj(base, shortcuts, ranks), IdxLinkDir::Forward, nodes_of(up), a),
        is_way(query_adj(base, shortcuts, ranks), IdxLinkDir::Backward, nodes_of(down), b),
        up.last() == down.last(),
    ensures
        is_way(
            full_adj(base, shortcuts),
            IdxLinkDir::Forward,
            nodes_of(up.drop_last() + down.reverse()),
            a + b,
        ),
{
    let q = query_adj(base, shortcuts, ranks);
    let full = full_adj(base, shortcuts);
    let fw = IdxLinkDir::Forward;
    let bw = IdxLinkDir::Backward;
    let nu = nodes_of(up);
    let nd = nodes_of(down);
    crate::faithful::lemma_full_sane(base, shortcuts, ranks);
    crate::faithful::lemma_full_mated(base, shortcuts, ranks);
    assert forall|i: int, w: int|
        0 <= i < nu.len() - 1 && #[trigger] step(q, fw, nu[i], nu[i + 1], w) implies step(
        full,
        fw,
        nu[i],
        nu[i + 1],
        w,
    ) by {
        lemma_query_row(base[nu[i]], shortcuts, ranks, nu[i], nu[i + 1], w, fw);
        lemma_full_row(base[nu[i]], shortcuts, nu[i], nu[i + 1], w, fw);
    }
    crate::paths::lemma_way_carries(q, full, fw, nu, a);
    assert forall|i: int, w: int|
        0 <= i < nd.len() - 1 && #[trigger] step(q, bw, nd[i], nd[i + 1], w) implies step(
        full,
        bw,
        nd[i],
        nd[i + 1],
        w,
    ) by {
        lemma_query_row(base[nd[i]], shortcuts, ranks, nd[i], nd[i + 1], w, bw);
        lemma_full_row(base[nd[i]], shortcuts, nd[i], nd[i + 1], w, bw);
    }
    crate::paths::lemma_way_carries(q, full, bw, nd, b);
    crate::paths::lemma_way_reversed(full, bw, nd, b);
    let back = nd.reverse();
    assert(nu.last() == up.last().0);
    assert(back[0] == nd[nd.len() - 1]);
    assert(back[0] == down.last().0);
    lemma_way_concat(full, fw, nu, a, back, b);
    assert(nu.drop_last() + back =~= nodes_of(up.drop_last() + down.reverse())) by {
        let joined = up.drop_last() + down.reverse();
        assert forall|i: int| 0 <= i < joined.len() implies (nu.drop_last() + back)[i] == nodes_of(
            joined,
        )[i] by {
            if i < up.len() - 1 {
                assert(joined[i] == up[i]);
            } else {
                let j = i - (up.len() - 1);
                assert(joined[i] == down.reverse()[j]);
                assert(down.reverse()[j] == down[down.len() - 1 - j]);
                assert(back[j] == nd[nd.len() - 1 - j]);
            }
        }
    }
}

} // verus!
