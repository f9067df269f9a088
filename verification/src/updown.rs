//! Every way over a faithful hierarchy can be had as a way up from its
//! start and a way up from its end that meet.

use crate::arcs::{lemma_full_row, lemma_query_row, linked};
use crate::faithful::{lemma_full_sane, 
    above, all_ranked, bypassed, distinct_ranks, faithful, framed, lemma_linked, valley,
    valleys_bypassed,
};
use crate::network::{IdxLinkDir, LinkView, COST_SPAN};
use crate::paths::{is_way, leads, lemma_way_concat, lemma_way_extend, lemma_way_prepend, step};
use crate::scoring::spans;
use crate::shortcut::CHContraction;
use crate::upward::{full_adj, query_adj};
use vstd::prelude::*;

verus! {

/// Every node of the way has rank `r` or more.
pub open spec fn low(ranks: Seq<u32>, nodes: Seq<int>, r: int) -> bool {
    forall|i: int| 0 <= i < nodes.len() ==> ranks[#[trigger] nodes[i]] >= r
}

/// How often the way is at a node of rank `r`.
pub open spec fn occ(ranks: Seq<u32>, nodes: Seq<int>, r: int) -> nat
    decreases nodes.len(),
{
    if nodes.len() == 0 {
        0
    } else {
        occ(ranks, nodes.drop_last(), r) + if ranks[nodes.last()] == r {
            1nat
        } else {
            0nat
        }
    }
}

/// A way up from `a` along the arcs and a way up from `b` against them meet
/// and cost no more than `c` together.
pub open spec fn meets_within(q: Seq<Seq<LinkView>>, a: int, b: int, c: int) -> bool {
    exists|up: Seq<int>, down: Seq<int>, x: int, ca: int, cb: int|
        #[trigger] leads(q, IdxLinkDir::Forward, up, a, x, ca) && #[trigger] leads(
            q,
            IdxLinkDir::Backward,
            down,
            b,
            x,
            cb,
        ) && ca + cb <= c
}

/// How often a joined way is at rank `r`: as often as its parts together.
pub proof fn lemma_occ_concat(ranks: Seq<u32>, a: Seq<int>, b: Seq<int>, r: int)
    ensures
        occ(ranks, a + b, r) == occ(ranks, a, r) + occ(ranks, b, r),
    decreases b.len(),
{
    if b.len() == 0 {
        assert(a + b =~= a);
    } else {
        assert((a + b).drop_last() =~= a + b.drop_last());
        assert((a + b).last() == b.last());
        lemma_occ_concat(ranks, a, b.drop_last(), r);
    }
}

/// How often a way of one node is at rank `r`.
pub proof fn lemma_occ_one(ranks: Seq<u32>, x: int, r: int)
    ensures
        occ(ranks, seq![x], r) == if ranks[x] == r {
            1nat
        } else {
            0nat
        },
{
    assert(seq![x].drop_last() =~= Seq::<int>::empty());
    assert(seq![x].last() == x);
    assert(occ(ranks, Seq::<int>::empty(), r) == 0);
}

/// A way that is never at rank `r` is at it no times, and the other way
/// round.
pub proof fn lemma_occ_none(ranks: Seq<u32>, nodes: Seq<int>, r: int)
    ensures
        occ(ranks, nodes, r) == 0 <==> forall|i: int|
            0 <= i < nodes.len() ==> ranks[#[trigger] nodes[i]] != r,
    decreases nodes.len(),
{
    if nodes.len() > 0 {
        let init = nodes.drop_last();
        lemma_occ_none(ranks, init, r);
        if occ(ranks, nodes, r) == 0 {
            assert forall|i: int| 0 <= i < nodes.len() implies ranks[#[trigger] nodes[i]] != r by {
                if i < init.len() {
                    assert(init[i] == nodes[i]);
                }
            }
        }
        if forall|i: int| 0 <= i < nodes.len() ==> ranks[#[trigger] nodes[i]] != r {
            assert forall|i: int| 0 <= i < init.len() implies ranks[#[trigger] init[i]] != r by {
                assert(init[i] == nodes[i]);
            }
            assert(ranks[nodes[nodes.len() - 1]] != r);
        }
    }
}

/// The first place where the way is at rank `r`.
pub proof fn lemma_occ_first(ranks: Seq<u32>, nodes: Seq<int>, r: int) -> (i: int)
    requires
        occ(ranks, nodes, r) > 0,
    ensures
        0 <= i < nodes.len(),
        ranks[nodes[i]] == r,
        forall|j: int| 0 <= j < i ==> ranks[#[trigger] nodes[j]] != r,
    decreases nodes.len(),
{
    let init = nodes.drop_last();
    if occ(ranks, init, r) > 0 {
        let i = lemma_occ_first(ranks, init, r);
        assert(init[i] == nodes[i]);
        assert forall|j: int| 0 <= j < i implies ranks[#[trigger] nodes[j]] != r by {
            assert(init[j] == nodes[j]);
        }
        i
    } else {
        lemma_occ_none(ranks, init, r);
        let i = nodes.len() - 1;
        assert forall|j: int| 0 <= j < i implies ranks[#[trigger] nodes[j]] != r by {
            assert(init[j] == nodes[j]);
        }
        i
    }
}

/// A way falls into the way up to a node and the way on from it.
pub proof fn lemma_way_cut(
    adj: Seq<Seq<LinkView>>,
    dir: IdxLinkDir,
    nodes: Seq<int>,
    cost: int,
    i: int,
) -> (c1: int)
    requires
        is_way(adj, dir, nodes, cost),
        0 <= i < nodes.len(),
    ensures
        is_way(adj, dir, nodes.take(i + 1), c1),
        is_way(adj, dir, nodes.skip(i), cost - c1),
    decreases nodes.len(),
{
    if i == nodes.len() - 1 {
        assert(nodes.take(i + 1) =~= nodes);
        assert(nodes.skip(i) =~= seq![nodes[i]]);
        cost
    } else {
        let w = choose|w: int|
            #[trigger] step(adj, dir, nodes[nodes.len() - 2], nodes.last(), w) && is_way(
                adj,
                dir,
                nodes.drop_last(),
                cost - w,
            );
        let init = nodes.drop_last();
        let c1 = lemma_way_cut(adj, dir, init, cost - w, i);
        assert(init.take(i + 1) =~= nodes.take(i + 1));
        let rest = init.skip(i);
        assert(rest.last() == nodes[nodes.len() - 2]);
        lemma_way_extend(adj, dir, rest, cost - w - c1, nodes.last(), w);
        assert(rest.push(nodes.last()) =~= nodes.skip(i));
        c1
    }
}

/// The first link of a way, and the way on from where it leads.
pub proof fn lemma_way_first(adj: Seq<Seq<LinkView>>, dir: IdxLinkDir, nodes: Seq<int>, cost: int) -> (w:
    int)
    requires
        is_way(adj, dir, nodes, cost),
        nodes.len() >= 2,
    ensures
        step(adj, dir, nodes[0], nodes[1], w),
        is_way(adj, dir, nodes.skip(1), cost - w),
{
    let c1 = lemma_way_cut(adj, dir, nodes, cost, 1);
    let two = nodes.take(2);
    assert(two.len() == 2);
    let w = choose|w: int|
        #[trigger] step(adj, dir, two[two.len() - 2], two.last(), w) && is_way(
            adj,
            dir,
            two.drop_last(),
            c1 - w,
        );
    assert(two[0] == nodes[0] && two[1] == nodes[1]);
    assert(two.drop_last().len() == 1);
    assert(c1 == w);
    w
}

/// What holds within a cost holds within a higher one.
pub proof fn lemma_meets_more(q: Seq<Seq<LinkView>>, a: int, b: int, c: int, more: int)
    requires
        meets_within(q, a, b, c),
        c <= more,
    ensures
        meets_within(q, a, b, more),
{
    let (up, down, x, ca, cb) = choose|up: Seq<int>, down: Seq<int>, x: int, ca: int, cb: int|
        #[trigger] leads(q, IdxLinkDir::Forward, up, a, x, ca) && #[trigger] leads(
            q,
            IdxLinkDir::Backward,
            down,
            b,
            x,
            cb,
        ) && ca + cb <= c;
    assert(leads(q, IdxLinkDir::Forward, up, a, x, ca) && leads(
        q,
        IdxLinkDir::Backward,
        down,
        b,
        x,
        cb,
    ) && ca + cb <= more);
}

/// The ends of an arc of the graph with its shortcuts are nodes that have a
/// rank.
pub proof fn lemma_arc_ranked(
    base: Seq<Seq<LinkView>>,
    shortcuts: Seq<CHContraction>,
    ranks: Seq<u32>,
    u: int,
    v: int,
    c: int,
)
    requires
        framed(base, shortcuts, ranks),
        all_ranked(base, shortcuts, ranks),
        step(full_adj(base, shortcuts), IdxLinkDir::Forward, u, v, c),
    ensures
        0 <= u < base.len(),
        0 <= v < base.len(),
        0 <= c,
        ranks[u] != u32::MAX,
        ranks[v] != u32::MAX,
        linked(base[u], shortcuts, u, v, c, IdxLinkDir::Forward),
        linked(base[v], shortcuts, v, u, c, IdxLinkDir::Backward),
{
    lemma_full_row(base[u], shortcuts, u, v, c, IdxLinkDir::Forward);
    lemma_linked(base, shortcuts, ranks, u, v, c, IdxLinkDir::Forward);
    if crate::adjacency::has_link(base[u], v, c, IdxLinkDir::Forward) {
        let j = choose|j: int|
            0 <= j < base[u].len() && #[trigger] base[u][j] == (LinkView {
                to: v,
                cost: c,
                dir: IdxLinkDir::Forward,
            });
        assert(crate::adjacency::has_link(base[v], u, c, IdxLinkDir::Backward));
        let k = choose|k: int|
            0 <= k < base[v].len() && #[trigger] base[v][k] == (LinkView {
                to: u,
                cost: c,
                dir: IdxLinkDir::Backward,
            });
    } else {
        let i = choose|i: int| 0 <= i < shortcuts.len() && spans(#[trigger] shortcuts[i], u, v, c);
    }
}

/// A way up from where the first arc of a way leads, and a way up from the
/// end of the way, that meet within what the rest of the way costs, make a
/// meeting for the whole way where the first arc leads up or nowhere.
pub proof fn lemma_start_step(
    base: Seq<Seq<LinkView>>,
    shortcuts: Seq<CHContraction>,
    ranks: Seq<u32>,
    s: int,
    next: int,
    t: int,
    w: int,
    rest: int,
)
    requires
        framed(base, shortcuts, ranks),
        all_ranked(base, shortcuts, ranks),
        step(full_adj(base, shortcuts), IdxLinkDir::Forward, s, next, w),
        next == s || ranks[next] > ranks[s],
        meets_within(query_adj(base, shortcuts, ranks), next, t, rest),
    ensures
        meets_within(query_adj(base, shortcuts, ranks), s, t, rest + w),
{
    let q = query_adj(base, shortcuts, ranks);
    let fw = IdxLinkDir::Forward;
    let bw = IdxLinkDir::Backward;
    lemma_arc_ranked(base, shortcuts, ranks, s, next, w);
    if next == s {
        lemma_meets_more(q, s, t, rest, rest + w);
    } else {
        let (up, down, x, ca, cb) = choose|up: Seq<int>, down: Seq<int>, x: int, ca: int, cb: int|
            #[trigger] leads(q, fw, up, next, x, ca) && #[trigger] leads(q, bw, down, t, x, cb)
                && ca + cb <= rest;
        lemma_query_row(base[s], shortcuts, ranks, s, next, w, fw);
        assert(step(q, fw, s, next, w));
        lemma_way_prepend(q, fw, up, ca, s, w);
        let longer = seq![s] + up;
        assert(longer.last() == up.last());
        assert(leads(q, fw, longer, s, x, ca + w) && leads(q, bw, down, t, x, cb) && (ca + w) + cb
            <= rest + w);
    }
}

/// A way up from the start of a way, and a way up from where its last arc
/// comes from, that meet within what the way costs before that arc, make a
/// meeting for the whole way where the last arc leads down or nowhere.
pub proof fn lemma_end_step(
    base: Seq<Seq<LinkView>>,
    shortcuts: Seq<CHContraction>,
    ranks: Seq<u32>,
    s: int,
    before: int,
    t: int,
    w: int,
    rest: int,
)
    requires
        framed(base, shortcuts, ranks),
        all_ranked(base, shortcuts, ranks),
        step(full_adj(base, shortcuts), IdxLinkDir::Forward, before, t, w),
        before == t || ranks[before] > ranks[t],
        meets_within(query_adj(base, shortcuts, ranks), s, before, rest),
    ensures
        meets_within(query_adj(base, shortcuts, ranks), s, t, rest + w),
{
    let q = query_adj(base, shortcuts, ranks);
    let fw = IdxLinkDir::Forward;
    let bw = IdxLinkDir::Backward;
    lemma_arc_ranked(base, shortcuts, ranks, before, t, w);
    if before == t {
        lemma_meets_more(q, s, t, rest, rest + w);
    } else {
        let (up, down, x, ca, cb) = choose|up: Seq<int>, down: Seq<int>, x: int, ca: int, cb: int|
            #[trigger] leads(q, fw, up, s, x, ca) && #[trigger] leads(q, bw, down, before, x, cb)
                && ca + cb <= rest;
        lemma_query_row(base[t], shortcuts, ranks, t, before, w, bw);
        assert(step(q, bw, t, before, w));
        lemma_way_prepend(q, bw, down, cb, t, w);
        let longer = seq![t] + down;
        assert(longer.last() == down.last());
        assert(leads(q, fw, up, s, x, ca) && leads(q, bw, longer, t, x, cb + w) && ca + (cb + w)
            <= rest + w);
    }
}

/// Two ways joined where the first ends and the second starts: the ranks
/// of the joined way, and how often it is at rank `r`.
pub proof fn lemma_joined(ranks: Seq<u32>, first: Seq<int>, second: Seq<int>, r: int)
    requires
        first.len() > 0,
        second.len() > 0,
        first.last() == second[0],
        low(ranks, first, r),
        low(ranks, second, r),
    ensures
        low(ranks, first.drop_last() + second, r),
        occ(ranks, first.drop_last() + second, r) + (if ranks[second[0]] == r {
            1nat
        } else {
            0nat
        }) == occ(ranks, first, r) + occ(ranks, second, r),
        (first.drop_last() + second)[0] == first[0],
        (first.drop_last() + second).last() == second.last(),
{
    let joined = first.drop_last() + second;
    assert(first =~= first.drop_last() + seq![first.last()]);
    lemma_occ_concat(ranks, first.drop_last(), seq![first.last()], r);
    lemma_occ_one(ranks, first.last(), r);
    lemma_occ_concat(ranks, first.drop_last(), second, r);
    assert forall|j: int| 0 <= j < joined.len() implies ranks[#[trigger] joined[j]] >= r by {
        if j < first.len() - 1 {
            assert(joined[j] == first[j]);
        } else {
            assert(joined[j] == second[j - (first.len() - 1)]);
        }
    }
    if first.len() > 1 {
        assert(joined[0] == first[0]);
    } else {
        assert(joined[0] == second[0]);
    }
}

/// A way falls into the way up to the node before place `i`, the arcs into
/// and out of the node at place `i`, and the way on from the node behind it.
pub proof fn lemma_cut_three(
    adj: Seq<Seq<LinkView>>,
    dir: IdxLinkDir,
    nodes: Seq<int>,
    cost: int,
    i: int,
) -> (out: (int, int, int))
    requires
        is_way(adj, dir, nodes, cost),
        0 < i < nodes.len() - 1,
    ensures
        is_way(adj, dir, nodes.take(i), out.0),
        step(adj, dir, nodes[i - 1], nodes[i], out.1),
        step(adj, dir, nodes[i], nodes[i + 1], out.2),
        is_way(adj, dir, nodes.skip(i + 1), cost - out.0 - out.1 - out.2),
{
    let a1 = lemma_way_cut(adj, dir, nodes, cost, i - 1);
    let from_u = nodes.skip(i - 1);
    let c1 = lemma_way_first(adj, dir, from_u, cost - a1);
    let from_v = from_u.skip(1);
    assert(from_v =~= nodes.skip(i));
    assert(from_u[0] == nodes[i - 1] && from_u[1] == nodes[i]);
    let c2 = lemma_way_first(adj, dir, from_v, cost - a1 - c1);
    assert(from_v.skip(1) =~= nodes.skip(i + 1));
    assert(from_v[0] == nodes[i] && from_v[1] == nodes[i + 1]);
    (a1, c1, c2)
}

/// Where place `i` is the first at which a way is at rank `r`: the ranks
/// of the way before and behind that place.
pub proof fn lemma_occ_three(ranks: Seq<u32>, nodes: Seq<int>, r: int, i: int)
    requires
        low(ranks, nodes, r),
        0 < i < nodes.len() - 1,
        ranks[nodes[i]] == r,
        forall|j: int| 0 <= j < i ==> ranks[#[trigger] nodes[j]] != r,
    ensures
        low(ranks, nodes.take(i), r),
        low(ranks, nodes.skip(i + 1), r),
        occ(ranks, nodes.take(i), r) == 0,
        occ(ranks, nodes, r) == 1 + occ(ranks, nodes.skip(i + 1), r),
        nodes.take(i).last() == nodes[i - 1],
        nodes.take(i)[0] == nodes[0],
        nodes.skip(i + 1)[0] == nodes[i + 1],
        nodes.skip(i + 1).last() == nodes.last(),
{
    let head = nodes.take(i);
    let tail = nodes.skip(i + 1);
    let v = nodes[i];
    assert(nodes =~= head + seq![v] + tail);
    lemma_occ_concat(ranks, head + seq![v], tail, r);
    lemma_occ_concat(ranks, head, seq![v], r);
    lemma_occ_one(ranks, v, r);
    lemma_occ_none(ranks, head, r);
    assert forall|j: int| 0 <= j < head.len() implies ranks[#[trigger] head[j]] >= r
        && ranks[head[j]] != r by {
        assert(head[j] == nodes[j]);
    }
    assert forall|j: int| 0 <= j < tail.len() implies ranks[#[trigger] tail[j]] >= r by {
        assert(tail[j] == nodes[j + i + 1]);
    }
}

/// The way round a valley, put in place of the valley.
pub proof fn lemma_round(
    full: Seq<Seq<LinkView>>,
    ranks: Seq<u32>,
    head: Seq<int>,
    a1: int,
    tail: Seq<int>,
    a3: int,
    v: int,
    c: int,
    r: int,
) -> (out: (Seq<int>, int))
    requires
        head.len() > 0,
        tail.len() > 0,
        is_way(full, IdxLinkDir::Forward, head, a1),
        is_way(full, IdxLinkDir::Forward, tail, a3),
        low(ranks, head, r),
        low(ranks, tail, r),
        occ(ranks, head, r) == 0,
        ranks[v] == r,
        bypassed(full, ranks, v, head.last(), tail[0], c),
    ensures
        out.0.len() >= 1,
        is_way(full, IdxLinkDir::Forward, out.0, out.1),
        out.1 <= a1 + c + a3,
        out.0[0] == head[0],
        out.0.last() == tail.last(),
        low(ranks, out.0, r),
        occ(ranks, out.0, r) == occ(ranks, tail, r),
{
    let fw = IdxLinkDir::Forward;
    let u = head.last();
    let z = tail[0];
    let (round, cr) = choose|round: Seq<int>, cr: int|
        cr <= c && #[trigger] leads(full, fw, round, u, z, cr) && above(
            ranks,
            round,
            ranks[v] as int,
        );
    assert forall|j: int| 0 <= j < round.len() implies ranks[#[trigger] round[j]] >= r
        && ranks[round[j]] != r by {
        assert(ranks[round[j]] > ranks[v]);
    }
    lemma_occ_none(ranks, round, r);
    lemma_way_concat(full, fw, head, a1, round, cr);
    lemma_joined(ranks, head, round, r);
    let first = head.drop_last() + round;
    lemma_way_concat(full, fw, first, a1 + cr, tail, a3);
    lemma_joined(ranks, first, tail, r);
    (first.drop_last() + tail, a1 + cr + a3)
}

/// The way without an arc from a node to itself.
pub proof fn lemma_loop_dropped(
    full: Seq<Seq<LinkView>>,
    ranks: Seq<u32>,
    head: Seq<int>,
    a1: int,
    tail: Seq<int>,
    a3: int,
    c1: int,
    r: int,
) -> (out: (Seq<int>, int))
    requires
        head.len() > 0,
        tail.len() > 0,
        is_way(full, IdxLinkDir::Forward, head, a1),
        is_way(full, IdxLinkDir::Forward, tail, a3),
        step(full, IdxLinkDir::Forward, head.last(), tail[0], c1),
        low(ranks, head, r),
        low(ranks, tail, r),
        occ(ranks, head, r) == 0,
    ensures
        out.0.len() >= 1,
        is_way(full, IdxLinkDir::Forward, out.0, out.1),
        out.1 == a1 + c1 + a3,
        out.0[0] == head[0],
        out.0.last() == tail.last(),
        low(ranks, out.0, r),
        occ(ranks, out.0, r) == occ(ranks, tail, r),
{
    let fw = IdxLinkDir::Forward;
    let v = tail[0];
    let keep = head.push(v);
    lemma_way_extend(full, fw, head, a1, v, c1);
    lemma_way_concat(full, fw, keep, a1 + c1, tail, a3);
    assert(keep.drop_last() =~= head);
    assert forall|j: int| 0 <= j < keep.len() implies ranks[#[trigger] keep[j]] >= r by {
        if j < head.len() {
            assert(keep[j] == head[j]);
        } else {
            assert(keep[j] == tail[0]);
        }
    }
    assert(keep =~= head + seq![v]);
    lemma_occ_concat(ranks, head, seq![v], r);
    lemma_occ_one(ranks, v, r);
    lemma_joined(ranks, keep, tail, r);
    (keep.drop_last() + tail, a1 + c1 + a3)
}

/// The way without a step to a node and back.
pub proof fn lemma_detour_dropped(
    full: Seq<Seq<LinkView>>,
    ranks: Seq<u32>,
    head: Seq<int>,
    a1: int,
    tail: Seq<int>,
    a3: int,
    r: int,
) -> (out: (Seq<int>, int))
    requires
        head.len() > 0,
        tail.len() > 0,
        is_way(full, IdxLinkDir::Forward, head, a1),
        is_way(full, IdxLinkDir::Forward, tail, a3),
        head.last() == tail[0],
        low(ranks, head, r),
        low(ranks, tail, r),
        occ(ranks, head, r) == 0,
    ensures
        out.0.len() >= 1,
        is_way(full, IdxLinkDir::Forward, out.0, out.1),
        out.1 == a1 + a3,
        out.0[0] == head[0],
        out.0.last() == tail.last(),
        low(ranks, out.0, r),
        occ(ranks, out.0, r) <= occ(ranks, tail, r),
{
    lemma_way_concat(full, IdxLinkDir::Forward, head, a1, tail, a3);
    lemma_joined(ranks, head, tail, r);
    (head.drop_last() + tail, a1 + a3)
}

/// The first place at which a way that does not start or end at rank `r`
/// is at rank `r`, and the parts the way falls into there.
pub proof fn lemma_first_low(
    base: Seq<Seq<LinkView>>,
    shortcuts: Seq<CHContraction>,
    ranks: Seq<u32>,
    nodes: Seq<int>,
    cost: int,
    r: int,
) -> (out: (int, int, int, int))
    requires
        framed(base, shortcuts, ranks),
        all_ranked(base, shortcuts, ranks),
        nodes.len() >= 2,
        is_way(full_adj(base, shortcuts), IdxLinkDir::Forward, nodes, cost),
        low(ranks, nodes, r),
        occ(ranks, nodes, r) > 0,
        ranks[nodes[0]] != r,
        ranks[nodes.last()] != r,
    ensures
        0 < out.0 < nodes.len() - 1,
        ranks[nodes[out.0]] == r,
        is_way(full_adj(base, shortcuts), IdxLinkDir::Forward, nodes.take(out.0), out.1),
        step(
            full_adj(base, shortcuts),
            IdxLinkDir::Forward,
            nodes[out.0 - 1],
            nodes[out.0],
            out.2,
        ),
        step(
            full_adj(base, shortcuts),
            IdxLinkDir::Forward,
            nodes[out.0],
            nodes[out.0 + 1],
            out.3,
        ),
        is_way(
            full_adj(base, shortcuts),
            IdxLinkDir::Forward,
            nodes.skip(out.0 + 1),
            cost - out.1 - out.2 - out.3,
        ),
        out.2 >= 0,
        out.3 >= 0,
        low(ranks, nodes.take(out.0), r),
        low(ranks, nodes.skip(out.0 + 1), r),
        occ(ranks, nodes.take(out.0), r) == 0,
        occ(ranks, nodes, r) == 1 + occ(ranks, nodes.skip(out.0 + 1), r),
        nodes.take(out.0).last() == nodes[out.0 - 1],
        nodes.take(out.0)[0] == nodes[0],
        nodes.skip(out.0 + 1)[0] == nodes[out.0 + 1],
        nodes.skip(out.0 + 1).last() == nodes.last(),
        0 <= nodes[out.0] < ranks.len(),
        0 <= nodes[out.0 - 1] < ranks.len(),
        0 <= nodes[out.0 + 1] < ranks.len(),
        ranks[nodes[out.0 - 1]] > r,
        ranks[nodes[out.0 + 1]] >= r,
{
    let full = full_adj(base, shortcuts);
    let fw = IdxLinkDir::Forward;
    let i = lemma_occ_first(ranks, nodes, r);
    let (a1, c1, c2) = lemma_cut_three(full, fw, nodes, cost, i);
    lemma_occ_three(ranks, nodes, r, i);
    lemma_arc_ranked(base, shortcuts, ranks, nodes[i - 1], nodes[i], c1);
    lemma_arc_ranked(base, shortcuts, ranks, nodes[i], nodes[i + 1], c2);
    assert(ranks[nodes[i - 1]] >= r);
    assert(ranks[nodes[i + 1]] >= r);
    (i, a1, c1, c2)
}

/// A way whose lowest node lies within it, at rank `r`, gives way to one
/// between the same ends that costs no more, keeps to rank `r` or above, and
/// is one time less at rank `r`.
pub proof fn lemma_inner_next(
    base: Seq<Seq<LinkView>>,
    shortcuts: Seq<CHContraction>,
    ranks: Seq<u32>,
    nodes: Seq<int>,
    cost: int,
    r: int,
) -> (out: (Seq<int>, int))
    requires
        framed(base, shortcuts, ranks),
        all_ranked(base, shortcuts, ranks),
        distinct_ranks(ranks),
        valleys_bypassed(full_adj(base, shortcuts), ranks),
        nodes.len() >= 2,
        is_way(full_adj(base, shortcuts), IdxLinkDir::Forward, nodes, cost),
        cost < COST_SPAN,
        low(ranks, nodes, r),
        occ(ranks, nodes, r) > 0,
        ranks[nodes[0]] != r,
        ranks[nodes.last()] != r,
    ensures
        out.0.len() >= 1,
        is_way(full_adj(base, shortcuts), IdxLinkDir::Forward, out.0, out.1),
        out.1 <= cost,
        out.0[0] == nodes[0],
        out.0.last() == nodes.last(),
        low(ranks, out.0, r),
        occ(ranks, out.0, r) < occ(ranks, nodes, r),
{
    let full = full_adj(base, shortcuts);
    let (i, a1, c1, c2) = lemma_first_low(base, shortcuts, ranks, nodes, cost, r);
    let v = nodes[i];
    let u = nodes[i - 1];
    let z = nodes[i + 1];
    let head = nodes.take(i);
    let tail = nodes.skip(i + 1);
    let a3 = cost - a1 - c1 - c2;
    if z == v {
        lemma_loop_dropped(full, ranks, head, a1, tail, a3, c1, r)
    } else if u == z {
        lemma_detour_dropped(full, ranks, head, a1, tail, a3, r)
    } else {
        assert(ranks[z] != r);
        assert(valley(full, ranks, u, v, z, c1, c2));
        lemma_full_sane(base, shortcuts, ranks);
        crate::paths::lemma_way_bounds(full, IdxLinkDir::Forward, head, a1);
        crate::paths::lemma_way_bounds(full, IdxLinkDir::Forward, tail, a3);
        assert(c1 + c2 < COST_SPAN);
        assert(bypassed(full, ranks, v, u, z, c1 + c2));
        lemma_round(full, ranks, head, a1, tail, a3, v, c1 + c2, r)
    }
}

/// A way that is nowhere at rank `r` and nowhere below keeps above it.
pub proof fn lemma_rank_free(
    base: Seq<Seq<LinkView>>,
    shortcuts: Seq<CHContraction>,
    ranks: Seq<u32>,
    nodes: Seq<int>,
    cost: int,
    r: int,
)
    requires
        framed(base, shortcuts, ranks),
        all_ranked(base, shortcuts, ranks),
        nodes.len() >= 2,
        is_way(full_adj(base, shortcuts), IdxLinkDir::Forward, nodes, cost),
        low(ranks, nodes, r),
        occ(ranks, nodes, r) == 0,
    ensures
        r < u32::MAX,
        low(ranks, nodes, r + 1),
{
    let full = full_adj(base, shortcuts);
    lemma_occ_none(ranks, nodes, r);
    let w0 = lemma_way_first(full, IdxLinkDir::Forward, nodes, cost);
    lemma_arc_ranked(base, shortcuts, ranks, nodes[0], nodes[1], w0);
    assert(ranks[nodes[0]] >= r);
    assert forall|i: int| 0 <= i < nodes.len() implies ranks[#[trigger] nodes[i]] >= r + 1 by {
        assert(ranks[nodes[i]] >= r);
    }
}

/// A way that starts at its lowest node, at rank `r`: its first arc leads
/// up or nowhere, and the rest of it is one time less at rank `r`.
pub proof fn lemma_head_off(
    base: Seq<Seq<LinkView>>,
    shortcuts: Seq<CHContraction>,
    ranks: Seq<u32>,
    nodes: Seq<int>,
    cost: int,
    r: int,
) -> (w: int)
    requires
        framed(base, shortcuts, ranks),
        all_ranked(base, shortcuts, ranks),
        distinct_ranks(ranks),
        nodes.len() >= 2,
        is_way(full_adj(base, shortcuts), IdxLinkDir::Forward, nodes, cost),
        low(ranks, nodes, r),
        ranks[nodes[0]] == r,
    ensures
        step(full_adj(base, shortcuts), IdxLinkDir::Forward, nodes[0], nodes[1], w),
        is_way(full_adj(base, shortcuts), IdxLinkDir::Forward, nodes.skip(1), cost - w),
        low(ranks, nodes.skip(1), r),
        occ(ranks, nodes.skip(1), r) + 1 == occ(ranks, nodes, r),
        nodes[1] == nodes[0] || ranks[nodes[1]] > ranks[nodes[0]],
        nodes.skip(1)[0] == nodes[1],
        nodes.skip(1).last() == nodes.last(),
{
    let full = full_adj(base, shortcuts);
    let s = nodes[0];
    let w = lemma_way_first(full, IdxLinkDir::Forward, nodes, cost);
    let rest = nodes.skip(1);
    lemma_arc_ranked(base, shortcuts, ranks, s, nodes[1], w);
    assert(nodes =~= seq![s] + rest);
    lemma_occ_concat(ranks, seq![s], rest, r);
    lemma_occ_one(ranks, s, r);
    assert forall|i: int| 0 <= i < rest.len() implies ranks[#[trigger] rest[i]] >= r by {
        assert(rest[i] == nodes[i + 1]);
    }
    assert(ranks[nodes[1]] >= r);
    w
}

/// A way that ends at its lowest node, at rank `r`: its last arc leads down
/// or nowhere, and the way before it is one time less at rank `r`.
pub proof fn lemma_tail_off(
    base: Seq<Seq<LinkView>>,
    shortcuts: Seq<CHContraction>,
    ranks: Seq<u32>,
    nodes: Seq<int>,
    cost: int,
    r: int,
) -> (w: int)
    requires
        framed(base, shortcuts, ranks),
        all_ranked(base, shortcuts, ranks),
        distinct_ranks(ranks),
        nodes.len() >= 2,
        is_way(full_adj(base, shortcuts), IdxLinkDir::Forward, nodes, cost),
        low(ranks, nodes, r),
        ranks[nodes.last()] == r,
    ensures
        step(
            full_adj(base, shortcuts),
            IdxLinkDir::Forward,
            nodes[nodes.len() - 2],
            nodes.last(),
            w,
        ),
        is_way(full_adj(base, shortcuts), IdxLinkDir::Forward, nodes.drop_last(), cost - w),
        low(ranks, nodes.drop_last(), r),
        occ(ranks, nodes.drop_last(), r) + 1 == occ(ranks, nodes, r),
        nodes[nodes.len() - 2] == nodes.last() || ranks[nodes[nodes.len() - 2]] > ranks[nodes.last()],
        nodes.drop_last()[0] == nodes[0],
        nodes.drop_last().last() == nodes[nodes.len() - 2],
{
    let full = full_adj(base, shortcuts);
    let fw = IdxLinkDir::Forward;
    let n = nodes.len() as int;
    let t = nodes.last();
    let w = choose|w: int|
        #[trigger] step(full, fw, nodes[n - 2], nodes.last(), w) && is_way(
            full,
            fw,
            nodes.drop_last(),
            cost - w,
        );
    let init = nodes.drop_last();
    let u = nodes[n - 2];
    lemma_arc_ranked(base, shortcuts, ranks, u, t, w);
    assert forall|i: int| 0 <= i < init.len() implies ranks[#[trigger] init[i]] >= r by {
        assert(init[i] == nodes[i]);
    }
    assert(nodes =~= init + seq![t]);
    lemma_occ_concat(ranks, init, seq![t], r);
    lemma_occ_one(ranks, t, r);
    assert(ranks[u] >= r);
    w
}

/// Every way over the graph with the shortcuts of a faithful hierarchy that
/// costs less than `COST_SPAN` can be had as two ways up the hierarchy that
/// meet, at no more cost.
pub proof fn lemma_updown(
    base: Seq<Seq<LinkView>>,
    shortcuts: Seq<CHContraction>,
    ranks: Seq<u32>,
    nodes: Seq<int>,
    cost: int,
    r: int,
)
    requires
        framed(base, shortcuts, ranks),
        faithful(base, shortcuts, ranks),
        nodes.len() >= 1,
        is_way(full_adj(base, shortcuts), IdxLinkDir::Forward, nodes, cost),
        cost < COST_SPAN,
        low(ranks, nodes, r),
        0 <= r <= u32::MAX,
    ensures
        meets_within(query_adj(base, shortcuts, ranks), nodes[0], nodes.last(), cost),
    decreases u32::MAX - r, occ(ranks, nodes, r),
{
    let q = query_adj(base, shortcuts, ranks);
    let n = nodes.len() as int;
    let s = nodes[0];
    let t = nodes.last();
    if n == 1 {
        assert(cost == 0);
        assert(leads(q, IdxLinkDir::Forward, seq![s], s, s, 0));
        assert(leads(q, IdxLinkDir::Backward, seq![s], s, s, 0));
    } else if occ(ranks, nodes, r) == 0 {
        lemma_rank_free(base, shortcuts, ranks, nodes, cost, r);
        lemma_updown(base, shortcuts, ranks, nodes, cost, r + 1);
    } else if ranks[s] == r {
        // the way starts at the lowest node: its first arc leads up
        let w = lemma_head_off(base, shortcuts, ranks, nodes, cost, r);
        lemma_full_sane(base, shortcuts, ranks);
        crate::paths::lemma_step_bounds(
            full_adj(base, shortcuts),
            IdxLinkDir::Forward,
            nodes[0],
            nodes[1],
            w,
        );
        lemma_updown(base, shortcuts, ranks, nodes.skip(1), cost - w, r);
        lemma_start_step(base, shortcuts, ranks, s, nodes[1], t, w, cost - w);
    } else if ranks[t] == r {
        // the way ends at the lowest node: its last arc leads down
        let w = lemma_tail_off(base, shortcuts, ranks, nodes, cost, r);
        lemma_full_sane(base, shortcuts, ranks);
        crate::paths::lemma_step_bounds(
            full_adj(base, shortcuts),
            IdxLinkDir::Forward,
            nodes[n - 2],
            nodes.last(),
            w,
        );
        lemma_updown(base, shortcuts, ranks, nodes.drop_last(), cost - w, r);
        lemma_end_step(base, shortcuts, ranks, s, nodes[n - 2], t, w, cost - w);
    } else {
        // the lowest node lies within the way
        assert(valleys_bypassed(full_adj(base, shortcuts), ranks));
        let (next, c) = lemma_inner_next(base, shortcuts, ranks, nodes, cost, r);
        lemma_updown(base, shortcuts, ranks, next, c, r);
        lemma_meets_more(q, s, t, c, cost);
    }
}

} // verus!
