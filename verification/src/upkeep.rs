//! What the contraction of a node keeps up: the working links stand for
//! arcs of the graph with its shortcuts, the arcs between nodes that are not
//! contracted yet have working links that cost no more, every shortcut
//! stands for a way of the graph, and every valley can be passed by.

use crate::adjacency::{
    all_grouped, costs_to, grouped, has_link, in_range, lemma_costs_to_found, lemma_costs_to_holds,
    paired, targets_within,
};
use crate::arcs::{lemma_full_row, spanned};
use crate::contraction::{
    lemma_merged_costs, lemma_without_first_costs, merged, merged_costs, swept, unmated, with_arc,
};
use crate::faithful::{
    above, all_through, bypassed, framed, lemma_link_real, lemma_reaches_join, real_shortcuts,
    through, valley, valleys_bypassed,
};
use crate::hierarchy::isolated;
use crate::network::{IdxLinkDir, IdxNodeKey, LinkView, COST_SPAN};
use crate::pairing::aims;
use crate::paths::{is_way, leads, lemma_way_carries, lemma_way_extend, lemma_way_steps, step};
use crate::retrace::{arc, decomposed, split};
use crate::scoring::{from_pair, necessary, open_pair, served, spans, via_shape};
use crate::search::without;
use crate::shortcut::CHContraction;
use crate::upward::full_adj;
use crate::witness::reaches;
use vstd::prelude::*;

verus! {

/// Node `u` is not contracted yet.
pub open spec fn live(ranks: Seq<u32>, u: int) -> bool {
    0 <= u < ranks.len() && ranks[u] == u32::MAX
}

/// The array has an arc from `x` to `y` that costs no more than `c`.
pub open spec fn within(work: Seq<Seq<LinkView>>, x: int, y: int, c: int) -> bool {
    exists|d: int| d <= c && #[trigger] step(work, IdxLinkDir::Forward, x, y, d)
}

/// Every arc of `work` between nodes other than `key` is an arc of `full`.
pub open spec fn held(full: Seq<Seq<LinkView>>, work: Seq<Seq<LinkView>>, key: int) -> bool {
    forall|x: int, y: int, c: int|
        x != key && y != key && #[trigger] step(work, IdxLinkDir::Forward, x, y, c) ==> step(
            full,
            IdxLinkDir::Forward,
            x,
            y,
            c,
        )
}

/// For every arc of `full` between nodes other than `key` that are not
/// contracted yet, `work` has an arc that costs no more.
pub open spec fn undercut(
    full: Seq<Seq<LinkView>>,
    work: Seq<Seq<LinkView>>,
    ranks: Seq<u32>,
    key: int,
) -> bool {
    forall|x: int, y: int, c: int|
        x != key && y != key && live(ranks, x) && live(ranks, y) && #[trigger] step(
            full,
            IdxLinkDir::Forward,
            x,
            y,
            c,
        ) ==> within(work, x, y, c)
}

/// A node has a link to `y` of cost `c` where `c` is among its costs to `y`.
pub proof fn lemma_step_costs(adj: Seq<Seq<LinkView>>, dir: IdxLinkDir, x: int, y: int, c: int)
    ensures
        step(adj, dir, x, y, c) <==> 0 <= x < adj.len() && costs_to(adj[x], y, dir).contains(c),
{
    if 0 <= x < adj.len() {
        if costs_to(adj[x], y, dir).contains(c) {
            lemma_costs_to_found(adj[x], y, dir, c);
        }
        if has_link(adj[x], y, c, dir) {
            let j = choose|j: int|
                0 <= j < adj[x].len() && #[trigger] adj[x][j] == (LinkView {
                    to: y,
                    cost: c,
                    dir: dir,
                });
            lemma_costs_to_holds(adj[x], j);
        }
    }
}

/// The arcs of an array into which an arc from `s` to `e` was merged: those
/// it had, the first from `s` to `e` at the lower of two costs.
pub proof fn lemma_with_arc_steps(
    adj: Seq<Seq<LinkView>>,
    s: int,
    e: int,
    len: int,
    x: int,
    y: int,
    c: int,
)
    requires
        all_grouped(adj),
        0 <= s < adj.len(),
        0 <= e < adj.len(),
        s != e,
    ensures
        step(with_arc(adj, s, e, len), IdxLinkDir::Forward, x, y, c) ==> step(
            adj,
            IdxLinkDir::Forward,
            x,
            y,
            c,
        ) || (x == s && y == e && c == len),
        step(adj, IdxLinkDir::Forward, x, y, c) ==> within(with_arc(adj, s, e, len), x, y, c),
        within(with_arc(adj, s, e, len), s, e, len),
{
    let fw = IdxLinkDir::Forward;
    let next = with_arc(adj, s, e, len);
    let there = LinkView { to: e, cost: len, dir: IdxLinkDir::Forward };
    let back = LinkView { to: s, cost: len, dir: IdxLinkDir::Backward };
    let first = adj.update(s, merged(adj[s], there));
    assert(first[e] == adj[e]);
    assert(next[s] == merged(adj[s], there));
    assert(next[e] == merged(adj[e], back));
    assert(grouped(adj[s]));
    assert(grouped(adj[e]));
    lemma_step_costs(adj, fw, x, y, c);
    lemma_step_costs(next, fw, x, y, c);
    lemma_merged_costs(adj[s], there, y, fw);
    lemma_merged_costs(adj[e], back, y, fw);
    lemma_merged_costs(adj[s], there, e, fw);
    let old_costs = costs_to(adj[s], e, fw);
    let new_costs = costs_to(next[s], e, fw);
    assert(new_costs == merged_costs(old_costs, len));
    // the merged arc
    if old_costs.len() == 0 {
        assert(new_costs[0] == len);
    } else if old_costs[0] > len {
        assert(new_costs[0] == len);
    } else {
        assert(new_costs[0] == old_costs[0]);
    }
    let d0 = new_costs[0];
    assert(new_costs.contains(d0));
    lemma_step_costs(next, fw, s, e, d0);
    assert(d0 <= len && step(next, fw, s, e, d0));
    if 0 <= x < adj.len() {
        if x == s && y == e {
            if new_costs.contains(c) {
                let k = choose|k: int| 0 <= k < new_costs.len() && new_costs[k] == c;
                if old_costs.len() > 0 && !(old_costs[0] > len) {
                    assert(old_costs[k] == c);
                } else if old_costs.len() > 0 && k > 0 {
                    assert(old_costs[k] == c);
                }
            }
            if old_costs.contains(c) {
                let k = choose|k: int| 0 <= k < old_costs.len() && old_costs[k] == c;
                if k == 0 || !(old_costs[0] > len) {
                    if k == 0 {
                        assert(d0 <= c);
                    } else {
                        assert(new_costs[k] == c);
                        assert(new_costs.contains(c));
                        lemma_step_costs(next, fw, s, e, c);
                        assert(c <= c && step(next, fw, x, y, c));
                    }
                } else {
                    assert(new_costs[k] == c);
                    assert(new_costs.contains(c));
                    assert(c <= c && step(next, fw, x, y, c));
                }
            }
        } else {
            assert(costs_to(next[x], y, fw) == costs_to(adj[x], y, fw)) by {
                if x == s {
                    assert(!aims(there, y, fw));
                } else if x == e {
                    assert(!aims(back, y, fw));
                } else {
                    assert(next[x] == adj[x]);
                }
            }
            if step(adj, fw, x, y, c) {
                assert(c <= c && step(next, fw, x, y, c));
            }
        }
    }
}

/// Taking the mate of a link of `key` out leaves the arcs between the other
/// nodes as they are.
pub proof fn lemma_unmated_steps(
    adj: Seq<Seq<LinkView>>,
    key: int,
    link: LinkView,
    x: int,
    y: int,
    c: int,
)
    requires
        y != key,
    ensures
        unmated(adj, key, link).len() == adj.len(),
        step(unmated(adj, key, link), IdxLinkDir::Forward, x, y, c) <==> step(
            adj,
            IdxLinkDir::Forward,
            x,
            y,
            c,
        ),
{
    let fw = IdxLinkDir::Forward;
    let next = unmated(adj, key, link);
    lemma_step_costs(adj, fw, x, y, c);
    lemma_step_costs(next, fw, x, y, c);
    if 0 <= x < adj.len() {
        if 0 <= link.to < adj.len() && link.to != key && x == link.to {
            lemma_without_first_costs(adj[x], key, link.dir.flipped(), y, fw);
        } else {
            assert(next[x] == adj[x]);
        }
    }
}

/// Sweeping the mates of the links of `key` out leaves the arcs between the
/// other nodes as they are.
pub proof fn lemma_swept_steps(
    adj: Seq<Seq<LinkView>>,
    key: int,
    links: Seq<LinkView>,
    x: int,
    y: int,
    c: int,
)
    requires
        y != key,
    ensures
        step(swept(adj, key, links), IdxLinkDir::Forward, x, y, c) <==> step(
            adj,
            IdxLinkDir::Forward,
            x,
            y,
            c,
        ),
    decreases links.len(),
{
    if links.len() > 0 {
        lemma_unmated_steps(adj, key, links[0], x, y, c);
        lemma_swept_steps(unmated(adj, key, links[0]), key, links.skip(1), x, y, c);
    }
}

/// The arcs of the graph with more shortcuts: those it had with the others
/// and those that the new shortcuts stand for.
pub proof fn lemma_full_grows(
    base: Seq<Seq<LinkView>>,
    shortcuts: Seq<CHContraction>,
    more: Seq<CHContraction>,
    x: int,
    y: int,
    c: int,
)
    ensures
        step(full_adj(base, shortcuts + more), IdxLinkDir::Forward, x, y, c) <==> step(
            full_adj(base, shortcuts),
            IdxLinkDir::Forward,
            x,
            y,
            c,
        ) || (0 <= x < base.len() && spanned(more, x, y, c)),
{
    let fw = IdxLinkDir::Forward;
    let all = shortcuts + more;
    if 0 <= x < base.len() {
        lemma_full_row(base[x], shortcuts, x, y, c, fw);
        lemma_full_row(base[x], all, x, y, c, fw);
        if spanned(shortcuts, x, y, c) {
            let i = choose|i: int| 0 <= i < shortcuts.len() && spans(#[trigger] shortcuts[i], x, y, c);
            assert(all[i] == shortcuts[i]);
        }
        if spanned(more, x, y, c) {
            let i = choose|i: int| 0 <= i < more.len() && spans(#[trigger] more[i], x, y, c);
            assert(all[shortcuts.len() + i] == more[i]);
        }
        if spanned(all, x, y, c) {
            let i = choose|i: int| 0 <= i < all.len() && spans(#[trigger] all[i], x, y, c);
            if i < shortcuts.len() {
                assert(all[i] == shortcuts[i]);
            } else {
                assert(all[i] == more[i - shortcuts.len()]);
            }
        }
    }
}

/// Merging an arc of `full` in keeps the working arcs among the arcs of
/// `full`.
pub proof fn lemma_arc_held(
    full: Seq<Seq<LinkView>>,
    cur: Seq<Seq<LinkView>>,
    s: int,
    e: int,
    len: int,
    key: int,
)
    requires
        held(full, cur, key),
        all_grouped(cur),
        0 <= s < cur.len(),
        0 <= e < cur.len(),
        s != e,
        step(full, IdxLinkDir::Forward, s, e, len),
    ensures
        held(full, with_arc(cur, s, e, len), key),
{
    let fw = IdxLinkDir::Forward;
    let next = with_arc(cur, s, e, len);
    assert forall|x: int, y: int, d: int|
        x != key && y != key && #[trigger] step(next, fw, x, y, d) implies step(full, fw, x, y, d) by {
        lemma_with_arc_steps(cur, s, e, len, x, y, d);
    }
}

/// Merging the arc of a shortcut in keeps the working arcs at or below the
/// arcs of the graph with the shortcuts merged in so far.
pub proof fn lemma_arc_undercut(
    base: Seq<Seq<LinkView>>,
    now: Seq<CHContraction>,
    c: CHContraction,
    cur: Seq<Seq<LinkView>>,
    ranks: Seq<u32>,
    key: int,
)
    requires
        undercut(full_adj(base, now), cur, ranks, key),
        all_grouped(cur),
        cur.len() == base.len(),
        c.snode_idx.0 < cur.len(),
        c.enode_idx.0 < cur.len(),
        c.snode_idx != c.enode_idx,
    ensures
        undercut(
            full_adj(base, now.push(c)),
            with_arc(cur, c.snode_idx.0 as int, c.enode_idx.0 as int, c.length as int),
            ranks,
            key,
        ),
{
    let fw = IdxLinkDir::Forward;
    let s = c.snode_idx.0 as int;
    let e = c.enode_idx.0 as int;
    let len = c.length as int;
    let next = with_arc(cur, s, e, len);
    assert(now.push(c) =~= now + seq![c]);
    assert forall|x: int, y: int, d: int|
        x != key && y != key && live(ranks, x) && live(ranks, y) && #[trigger] step(
            full_adj(base, now.push(c)),
            fw,
            x,
            y,
            d,
        ) implies within(next, x, y, d) by {
        lemma_full_grows(base, now, seq![c], x, y, d);
        if step(full_adj(base, now), fw, x, y, d) {
            assert(within(cur, x, y, d));
            let d1 = choose|d1: int| d1 <= d && #[trigger] step(cur, fw, x, y, d1);
            lemma_with_arc_steps(cur, s, e, len, x, y, d1);
            let d2 = choose|d2: int| d2 <= d1 && #[trigger] step(next, fw, x, y, d2);
            assert(d2 <= d && step(next, fw, x, y, d2));
        } else {
            let i = choose|i: int| 0 <= i < 1 && spans(#[trigger] seq![c][i], x, y, d);
            assert(seq![c][i] == c);
            lemma_with_arc_steps(cur, s, e, len, x, y, d);
        }
    }
}

/// Sweeping the mates of the links of a contracted node out keeps the
/// working arcs among those of `full`.
pub proof fn lemma_sweep_held(
    full: Seq<Seq<LinkView>>,
    work: Seq<Seq<LinkView>>,
    key: int,
    links: Seq<LinkView>,
)
    requires
        held(full, work, key),
        0 <= key < work.len(),
        swept(work, key, links).len() == work.len(),
        paired(swept(work, key, links)),
        swept(work, key, links)[key].len() == 0,
    ensures
        held(full, swept(work, key, links), -1),
{
    let fw = IdxLinkDir::Forward;
    let next = swept(work, key, links);
    assert forall|x: int, y: int, d: int|
        x != -1 && y != -1 && #[trigger] step(next, fw, x, y, d) implies step(full, fw, x, y, d) by {
        if x == key {
            assert(!has_link(next[key], y, d, fw));
        } else if y == key {
            lemma_step_costs(next, fw, x, y, d);
            assert(costs_to(next[x], key, fw) == costs_to(next[key], x, IdxLinkDir::Backward));
            assert(next[key] =~= Seq::<LinkView>::empty());
        } else {
            lemma_swept_steps(work, key, links, x, y, d);
        }
    }
}

/// Sweeping the mates of the links of a contracted node out keeps the
/// working arcs between the nodes that are left at or below those of `full`.
pub proof fn lemma_sweep_undercut(
    full: Seq<Seq<LinkView>>,
    work: Seq<Seq<LinkView>>,
    key: int,
    links: Seq<LinkView>,
    ranks: Seq<u32>,
)
    requires
        undercut(full, work, ranks, key),
        !live(ranks, key),
    ensures
        undercut(full, swept(work, key, links), ranks, -1),
{
    let fw = IdxLinkDir::Forward;
    let next = swept(work, key, links);
    assert forall|x: int, y: int, d: int|
        x != -1 && y != -1 && live(ranks, x) && live(ranks, y) && #[trigger] step(
            full,
            fw,
            x,
            y,
            d,
        ) implies within(next, x, y, d) by {
        assert(within(work, x, y, d));
        let d1 = choose|d1: int| d1 <= d && #[trigger] step(work, fw, x, y, d1);
        lemma_swept_steps(work, key, links, x, y, d1);
        assert(d1 <= d && step(next, fw, x, y, d1));
    }
}

/// With the links of `key` taken out, the working arcs between the other
/// nodes are arcs of the graph with its shortcuts and more.
pub proof fn lemma_set_out_held(
    base: Seq<Seq<LinkView>>,
    work: Seq<Seq<LinkView>>,
    shortcuts: Seq<CHContraction>,
    more: Seq<CHContraction>,
    key: int,
)
    requires
        held(full_adj(base, shortcuts), work, -1),
        0 <= key < work.len(),
        in_range(work),
    ensures
        held(
            full_adj(base, shortcuts + more),
            work.update(key, Seq::<LinkView>::empty()),
            key,
        ),
{
    let fw = IdxLinkDir::Forward;
    let out = work.update(key, Seq::<LinkView>::empty());
    assert forall|x: int, y: int, d: int|
        x != key && y != key && #[trigger] step(out, fw, x, y, d) implies step(
        full_adj(base, shortcuts + more),
        fw,
        x,
        y,
        d,
    ) by {
        assert(out[x] == work[x]);
        assert(step(work, fw, x, y, d));
        let j = choose|j: int|
            0 <= j < work[x].len() && #[trigger] work[x][j] == (LinkView { to: y, cost: d, dir: fw });
        assert(targets_within(work[x], work.len() as int));
        assert(0 <= work[x][j].to);
        lemma_full_grows(base, shortcuts, more, x, y, d);
    }
}

/// With the links of `key` taken out and a rank given to it, the working
/// arcs between the other nodes cost no more than before.
pub proof fn lemma_set_out_undercut(
    full: Seq<Seq<LinkView>>,
    work: Seq<Seq<LinkView>>,
    ranks: Seq<u32>,
    key: int,
    rank: u32,
)
    requires
        undercut(full, work, ranks, -1),
        0 <= key < work.len(),
        work.len() == ranks.len(),
    ensures
        undercut(
            full,
            work.update(key, Seq::<LinkView>::empty()),
            ranks.update(key, rank),
            key,
        ),
{
    let fw = IdxLinkDir::Forward;
    let out = work.update(key, Seq::<LinkView>::empty());
    assert forall|x: int, y: int, d: int|
        x != key && y != key && live(ranks.update(key, rank), x) && live(
            ranks.update(key, rank),
            y,
        ) && #[trigger] step(full, fw, x, y, d) implies within(out, x, y, d) by {
        assert(live(ranks, x) && live(ranks, y));
        assert(within(work, x, y, d));
        let d1 = choose|d1: int| d1 <= d && #[trigger] step(work, fw, x, y, d1);
        assert(out[x] == work[x]);
        assert(d1 <= d && step(out, fw, x, y, d1));
    }
}

/// The costs of any `Backward` link and any `Forward` link of the list fit
/// a link together.
pub open spec fn roomy(nb: Seq<LinkView>) -> bool {
    forall|b: int, f: int|
        0 <= b < nb.len() && 0 <= f < nb.len() && (#[trigger] nb[b]).dir == IdxLinkDir::Backward && (
        #[trigger] nb[f]).dir == IdxLinkDir::Forward ==> nb[b].cost + nb[f].cost < COST_SPAN
}

/// The shortcuts through a node, each over two of its working links, stand
/// for ways of the graph, as the shortcuts before them do.
pub proof fn lemma_new_shortcuts_real(
    base: Seq<Seq<LinkView>>,
    work: Seq<Seq<LinkView>>,
    shortcuts: Seq<CHContraction>,
    found: Seq<CHContraction>,
    ranks: Seq<u32>,
    key: IdxNodeKey,
)
    requires
        framed(base, shortcuts, ranks),
        real_shortcuts(base, shortcuts),
        all_through(base, shortcuts),
        held(full_adj(base, shortcuts), work, -1),
        in_range(work),
        paired(work),
        work.len() == base.len(),
        key.0 < work.len(),
        forall|k: int| 0 <= k < found.len() ==> via_shape(work[key.0 as int], key, #[trigger] found[k]),
    ensures
        real_shortcuts(base, shortcuts + found),
        all_through(base, shortcuts + found),
{
    let fw = IdxLinkDir::Forward;
    let bw = IdxLinkDir::Backward;
    let all = shortcuts + found;
    let k0 = key.0 as int;
    let nb = work[k0];
    let full = full_adj(base, shortcuts);
    assert(targets_within(nb, work.len() as int));
    assert forall|i: int| 0 <= i < all.len() implies reaches(
        base,
        (#[trigger] all[i]).snode_idx.0 as int,
        all[i].enode_idx.0 as int,
        all[i].length as int,
    ) && through(base, all[i]) by {
        if i < shortcuts.len() {
            assert(all[i] == shortcuts[i]);
            assert(through(base, shortcuts[i]));
        } else {
            let c = found[i - shortcuts.len()];
            assert(all[i] == c);
            assert(via_shape(nb, key, c));
            let (b, f) = choose|b: int, f: int| #[trigger] from_pair(nb, c, b, f);
            let s = nb[b].to;
            let e = nb[f].to;
            let cb = nb[b].cost;
            let cf = nb[f].cost;
            assert(nb[b] == (LinkView { to: s, cost: cb, dir: bw }));
            assert(nb[f] == (LinkView { to: e, cost: cf, dir: fw }));
            assert(has_link(nb, s, cb, bw));
            assert(has_link(nb, e, cf, fw));
            lemma_step_costs(work, bw, k0, s, cb);
            assert(costs_to(work[s], k0, fw) == costs_to(work[k0], s, bw));
            lemma_step_costs(work, fw, s, k0, cb);
            assert(step(work, fw, s, k0, cb));
            assert(step(full, fw, s, k0, cb));
            assert(step(work, fw, k0, e, cf));
            assert(step(full, fw, k0, e, cf));
            lemma_full_row(base[s], shortcuts, s, k0, cb, fw);
            lemma_full_row(base[k0], shortcuts, k0, e, cf, fw);
            lemma_link_real(base, shortcuts, ranks, s, k0, cb, fw);
            lemma_link_real(base, shortcuts, ranks, k0, e, cf, fw);
            lemma_reaches_join(base, s, k0, e, cb, cf);
            assert(reaches(base, c.snode_idx.0 as int, c.mnode_idx.0 as int, cb) && reaches(
                base,
                c.mnode_idx.0 as int,
                c.enode_idx.0 as int,
                cf,
            ) && cb + cf == c.length);
        }
    }
}

/// A valley at a node that was contracted before stays passed by when
/// another node is contracted.
pub proof fn lemma_valley_before(
    base: Seq<Seq<LinkView>>,
    shortcuts: Seq<CHContraction>,
    found: Seq<CHContraction>,
    ranks: Seq<u32>,
    key: int,
    rank: u32,
    u: int,
    v: int,
    w: int,
    c1: int,
    c2: int,
)
    requires
        valleys_bypassed(full_adj(base, shortcuts), ranks),
        ranks.len() == base.len(),
        live(ranks, key),
        rank < u32::MAX,
        forall|x: int| 0 <= x < ranks.len() && #[trigger] ranks[x] != u32::MAX ==> ranks[x] < rank,
        forall|k: int|
            0 <= k < found.len() ==> live(ranks, (#[trigger] found[k]).snode_idx.0 as int) && live(
                ranks,
                found[k].enode_idx.0 as int,
            ),
        valley(full_adj(base, shortcuts + found), ranks.update(key, rank), u, v, w, c1, c2),
        c1 + c2 < COST_SPAN,
        v != key,
    ensures
        bypassed(full_adj(base, shortcuts + found), ranks.update(key, rank), v, u, w, c1 + c2),
{
    let fw = IdxLinkDir::Forward;
    let full0 = full_adj(base, shortcuts);
    let full1 = full_adj(base, shortcuts + found);
    let ranks1 = ranks.update(key, rank);
    assert(ranks1[v] == ranks[v]);
    assert(ranks[v] != u32::MAX);
    lemma_full_grows(base, shortcuts, found, u, v, c1);
    lemma_full_grows(base, shortcuts, found, v, w, c2);
    if spanned(found, u, v, c1) {
        let i = choose|i: int| 0 <= i < found.len() && spans(#[trigger] found[i], u, v, c1);
        assert(live(ranks, found[i].enode_idx.0 as int));
    }
    if spanned(found, v, w, c2) {
        let i = choose|i: int| 0 <= i < found.len() && spans(#[trigger] found[i], v, w, c2);
        assert(live(ranks, found[i].snode_idx.0 as int));
    }
    assert(valley(full0, ranks, u, v, w, c1, c2));
    assert(bypassed(full0, ranks, v, u, w, c1 + c2));
    let (nodes, c) = choose|nodes: Seq<int>, c: int|
        c <= c1 + c2 && #[trigger] leads(full0, fw, nodes, u, w, c) && above(
            ranks,
            nodes,
            ranks[v] as int,
        );
    assert forall|i: int, d: int|
        0 <= i < nodes.len() - 1 && #[trigger] step(full0, fw, nodes[i], nodes[i + 1], d) implies step(
        full1,
        fw,
        nodes[i],
        nodes[i + 1],
        d,
    ) by {
        lemma_full_grows(base, shortcuts, found, nodes[i], nodes[i + 1], d);
    }
    lemma_way_carries(full0, full1, fw, nodes, c);
    assert forall|i: int| 0 <= i < nodes.len() implies ranks1[#[trigger] nodes[i]]
        > ranks1[v] as int by {
        assert(ranks[nodes[i]] > ranks[v]);
        if i < nodes.len() - 1 {
            let d = lemma_way_steps(full0, fw, nodes, c, i);
        } else {
            assert(nodes[i] == w);
        }
    }
    assert(c <= c1 + c2 && leads(full1, fw, nodes, u, w, c) && above(
        ranks1,
        nodes,
        ranks1[v] as int,
    ));
}

/// A way that does not leave `key` keeps, but for its end, to nodes other
/// than `key` that are not contracted yet.
pub proof fn lemma_way_round_is_live(
    work: Seq<Seq<LinkView>>,
    ranks: Seq<u32>,
    key: int,
    nodes: Seq<int>,
    cost: int,
    i: int,
)
    requires
        0 <= key < work.len(),
        work.len() == ranks.len(),
        isolated(work, ranks),
        is_way(work.update(key, Seq::<LinkView>::empty()), IdxLinkDir::Forward, nodes, cost),
        0 <= i < nodes.len() - 1,
    ensures
        nodes[i] != key,
        live(ranks, nodes[i]),
{
    let out = work.update(key, Seq::<LinkView>::empty());
    let d = lemma_way_steps(out, IdxLinkDir::Forward, nodes, cost, i);
    let x = nodes[i];
    if x == key {
        assert(out[key].len() == 0);
    } else {
        assert(out[x] == work[x]);
        assert(work[x].len() > 0);
    }
}

/// The valleys at the node that is contracted are passed by: by a shortcut,
/// or by the way round that the witness search found.
pub proof fn lemma_valley_at_key(
    base: Seq<Seq<LinkView>>,
    work: Seq<Seq<LinkView>>,
    shortcuts: Seq<CHContraction>,
    found: Seq<CHContraction>,
    ranks: Seq<u32>,
    key: IdxNodeKey,
    rank: u32,
    u: int,
    w: int,
    c1: int,
    c2: int,
)
    requires
        held(full_adj(base, shortcuts), work, -1),
        undercut(full_adj(base, shortcuts), work, ranks, -1),
        in_range(work),
        paired(work),
        isolated(work, ranks),
        work.len() == base.len(),
        ranks.len() == base.len(),
        live(ranks, key.0 as int),
        rank < u32::MAX,
        forall|x: int| 0 <= x < ranks.len() && #[trigger] ranks[x] != u32::MAX ==> ranks[x] < rank,
        c1 + c2 < COST_SPAN,
        necessary(
            work.update(key.0 as int, Seq::<LinkView>::empty()),
            key,
            work[key.0 as int],
            found,
        ),
        valley(
            full_adj(base, shortcuts + found),
            ranks.update(key.0 as int, rank),
            u,
            key.0 as int,
            w,
            c1,
            c2,
        ),
    ensures
        bypassed(
            full_adj(base, shortcuts + found),
            ranks.update(key.0 as int, rank),
            key.0 as int,
            u,
            w,
            c1 + c2,
        ),
{
    let fw = IdxLinkDir::Forward;
    let bw = IdxLinkDir::Backward;
    let k0 = key.0 as int;
    let nb = work[k0];
    let full0 = full_adj(base, shortcuts);
    let full1 = full_adj(base, shortcuts + found);
    let ranks1 = ranks.update(k0, rank);
    let out = work.update(k0, Seq::<LinkView>::empty());
    assert(ranks1[k0] == rank);
    assert(u != k0 && w != k0);
    assert(ranks1[u] == ranks[u] && ranks1[w] == ranks[w]);
    assert(live(ranks, u) && live(ranks, w));
    assert forall|k: int| 0 <= k < found.len() implies (#[trigger] found[k]).snode_idx != key
        && found[k].enode_idx != key by {
        assert(via_shape(nb, key, found[k]));
    }
    lemma_full_grows(base, shortcuts, found, u, k0, c1);
    lemma_full_grows(base, shortcuts, found, k0, w, c2);
    if spanned(found, u, k0, c1) {
        let i = choose|i: int| 0 <= i < found.len() && spans(#[trigger] found[i], u, k0, c1);
        assert(found[i].enode_idx != key);
    }
    if spanned(found, k0, w, c2) {
        let i = choose|i: int| 0 <= i < found.len() && spans(#[trigger] found[i], k0, w, c2);
        assert(found[i].snode_idx != key);
    }
    assert(step(full0, fw, u, k0, c1));
    assert(step(full0, fw, k0, w, c2));
    assert(within(work, u, k0, c1));
    assert(within(work, k0, w, c2));
    let d1 = choose|d1: int| d1 <= c1 && #[trigger] step(work, fw, u, k0, d1);
    let d2 = choose|d2: int| d2 <= c2 && #[trigger] step(work, fw, k0, w, d2);
    lemma_step_costs(work, fw, u, k0, d1);
    assert(costs_to(work[u], k0, fw) == costs_to(work[k0], u, bw));
    lemma_step_costs(work, bw, k0, u, d1);
    assert(has_link(nb, u, d1, bw));
    assert(has_link(nb, w, d2, fw));
    let b = choose|b: int|
        0 <= b < nb.len() && #[trigger] nb[b] == (LinkView { to: u, cost: d1, dir: bw });
    let f = choose|f: int|
        0 <= f < nb.len() && #[trigger] nb[f] == (LinkView { to: w, cost: d2, dir: fw });
    assert(nb[b].cost + nb[f].cost <= c1 + c2);
    assert(open_pair(nb, key, b, f));
    assert(served(out, key, found, u, w, d1 + d2));
    if exists|k: int| 0 <= k < found.len() && spans(#[trigger] found[k], u, w, d1 + d2) {
        assert(spanned(found, u, w, d1 + d2));
        lemma_full_grows(base, shortcuts, found, u, w, d1 + d2);
        let one = seq![u];
        assert(is_way(full1, fw, one, 0));
        lemma_way_extend(full1, fw, one, 0, w, d1 + d2);
        let two = one.push(w);
        assert forall|i: int| 0 <= i < two.len() implies ranks1[#[trigger] two[i]] > rank as int by {
            if i == 0 {
                assert(two[i] == u);
            } else {
                assert(two[i] == w);
            }
        }
        assert(d1 + d2 <= c1 + c2 && leads(full1, fw, two, u, w, d1 + d2) && above(
            ranks1,
            two,
            ranks1[k0] as int,
        ));
    } else {
        let c = choose|c: int| c <= d1 + d2 && #[trigger] reaches(without(out, Some(key)), u, w, c);
        assert(without(out, Some(key)) =~= out);
        let nodes = choose|nodes: Seq<int>| leads(out, fw, nodes, u, w, c);
        assert forall|i: int, d: int|
            0 <= i < nodes.len() - 1 && #[trigger] step(out, fw, nodes[i], nodes[i + 1], d) implies step(
            full1,
            fw,
            nodes[i],
            nodes[i + 1],
            d,
        ) by {
            let x = nodes[i];
            let y = nodes[i + 1];
            if x == k0 {
                assert(out[k0].len() == 0);
            } else {
                assert(out[x] == work[x]);
                assert(step(work, fw, x, y, d));
                let j = choose|j: int|
                    0 <= j < work[x].len() && #[trigger] work[x][j] == (LinkView {
                        to: y,
                        cost: d,
                        dir: fw,
                    });
                assert(targets_within(work[x], work.len() as int));
                assert(0 <= work[x][j].to);
                assert(step(full0, fw, x, y, d));
                lemma_full_grows(base, shortcuts, found, x, y, d);
            }
        }
        lemma_way_carries(out, full1, fw, nodes, c);
        assert forall|i: int| 0 <= i < nodes.len() implies ranks1[#[trigger] nodes[i]]
            > rank as int by {
            if i < nodes.len() - 1 {
                lemma_way_round_is_live(work, ranks, k0, nodes, c, i);
            } else {
                assert(nodes[i] == w);
            }
        }
        assert(c <= c1 + c2 && leads(full1, fw, nodes, u, w, c) && above(
            ranks1,
            nodes,
            ranks1[k0] as int,
        ));
    }
}

/// The shortcuts through a node fall into two arcs each, as the shortcuts
/// before them do.
pub proof fn lemma_new_shortcuts_split(
    base: Seq<Seq<LinkView>>,
    work: Seq<Seq<LinkView>>,
    shortcuts: Seq<CHContraction>,
    found: Seq<CHContraction>,
    key: IdxNodeKey,
)
    requires
        decomposed(base, shortcuts),
        held(full_adj(base, shortcuts), work, -1),
        in_range(work),
        paired(work),
        work.len() == base.len(),
        key.0 < work.len(),
        forall|k: int| 0 <= k < found.len() ==> via_shape(work[key.0 as int], key, #[trigger] found[k]),
    ensures
        decomposed(base, shortcuts + found),
{
    let fw = IdxLinkDir::Forward;
    let bw = IdxLinkDir::Backward;
    let all = shortcuts + found;
    let k0 = key.0 as int;
    let nb = work[k0];
    let full0 = full_adj(base, shortcuts);
    let full1 = full_adj(base, all);
    assert(targets_within(nb, work.len() as int));
    assert forall|i: int| 0 <= i < all.len() implies split(full1, #[trigger] all[i]) by {
        let c = all[i];
        let s = c.snode_idx.0 as int;
        let m = c.mnode_idx.0 as int;
        let e = c.enode_idx.0 as int;
        if i < shortcuts.len() {
            assert(all[i] == shortcuts[i]);
            assert(split(full0, shortcuts[i]));
            let (c1, c2) = choose|c1: int, c2: int|
                #[trigger] step(full0, fw, s, m, c1) && #[trigger] step(full0, fw, m, e, c2) && c1
                    + c2 == c.length;
            lemma_full_grows(base, shortcuts, found, s, m, c1);
            lemma_full_grows(base, shortcuts, found, m, e, c2);
            assert(step(full1, fw, s, m, c1) && step(full1, fw, m, e, c2) && c1 + c2 == c.length);
        } else {
            assert(all[i] == found[i - shortcuts.len()]);
            assert(via_shape(nb, key, c));
            let (b, f) = choose|b: int, f: int| #[trigger] from_pair(nb, c, b, f);
            let cb = nb[b].cost;
            let cf = nb[f].cost;
            assert(nb[b] == (LinkView { to: s, cost: cb, dir: bw }));
            assert(nb[f] == (LinkView { to: e, cost: cf, dir: fw }));
            assert(has_link(nb, s, cb, bw));
            assert(has_link(nb, e, cf, fw));
            lemma_step_costs(work, bw, k0, s, cb);
            assert(costs_to(work[s], k0, fw) == costs_to(work[k0], s, bw));
            lemma_step_costs(work, fw, s, k0, cb);
            assert(step(work, fw, s, k0, cb));
            assert(step(full0, fw, s, k0, cb));
            assert(step(work, fw, k0, e, cf));
            assert(step(full0, fw, k0, e, cf));
            lemma_full_grows(base, shortcuts, found, s, k0, cb);
            lemma_full_grows(base, shortcuts, found, k0, e, cf);
            assert(from_pair(nb, c, b, f));
            assert(step(full1, fw, s, m, cb) && step(full1, fw, m, e, cf) && cb + cf == c.length);
        }
    }
}

} // verus!
