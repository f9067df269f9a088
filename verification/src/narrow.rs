//! Graphs in which no node has links to more than two nodes, nor two links
//! to the same node in the same direction: chains and rings, one-way or
//! two-way. A contraction keeps them so, their working links never number
//! more than four for each node that is left, and so the hop limit of their
//! build never rises.

use crate::adjacency::{
    all_grouped, costs_to, grouped, in_range, lemma_costs_to_found, lemma_costs_to_holds, paired,
    targets_within,
};
use crate::contraction::{
    first_aim, lemma_first_aim, lemma_part_point, lemma_swept, lemma_two_aims, merged, paired_but,
    part_point, plain, plain_list, swept, unmated, with_arc,
};
use crate::hierarchy::{contracted, isolated};
use crate::network::{IdxLinkDir, IdxNodeKey, LinkView};
use crate::scoring::{from_pair, via_shape};
use crate::shortcut::CHContraction;
use vstd::prelude::*;

verus! {

/// Every link of the list leads to `x` or to `y`.
pub open spec fn ends_in(list: Seq<LinkView>, x: int, y: int) -> bool {
    forall|i: int| 0 <= i < list.len() ==> (#[trigger] list[i]).to == x || list[i].to == y
}

/// The links of the list lead to at most two nodes.
pub open spec fn two_ended(list: Seq<LinkView>) -> bool {
    exists|x: int, y: int| #[trigger] ends_in(list, x, y)
}

/// The links of each node lead to at most two nodes.
pub open spec fn all_two_ended(adj: Seq<Seq<LinkView>>) -> bool {
    forall|u: int| 0 <= u < adj.len() ==> two_ended(#[trigger] adj[u])
}

/// No node has links to more than two nodes, nor two links to the same
/// node in the same direction.
pub open spec fn narrow(adj: Seq<Seq<LinkView>>) -> bool {
    plain(adj) && all_two_ended(adj)
}

/// The list holds a link to `t`.
pub open spec fn leads_to(list: Seq<LinkView>, t: int) -> bool {
    exists|j: int| 0 <= j < list.len() && (#[trigger] list[j]).to == t
}

/// One of the shortcuts joins `u` and `t`, in either direction.
pub open spec fn joined(found: Seq<CHContraction>, u: int, t: int) -> bool {
    exists|m: int|
        0 <= m < found.len() && ((#[trigger] found[m]).snode_idx.0 == u && found[m].enode_idx.0 == t
            || found[m].enode_idx.0 == u && found[m].snode_idx.0 == t)
}

/// Each link of `now` leads where a link of the same node in `then` leads,
/// or along one of the shortcuts.
pub open spec fn grown(
    then: Seq<Seq<LinkView>>,
    found: Seq<CHContraction>,
    now: Seq<Seq<LinkView>>,
) -> bool {
    &&& now.len() == then.len()
    &&& forall|u: int, i: int|
        0 <= u < now.len() && 0 <= i < now[u].len() ==> leads_to(then[u], (#[trigger] now[u][i]).to)
            || joined(found, u, now[u][i].to)
}

/// Each link of a list that a link was merged into leads where that link
/// leads or where a link of the list led.
pub proof fn lemma_merged_ends(list: Seq<LinkView>, link: LinkView)
    requires
        grouped(list),
    ensures
        forall|i: int|
            0 <= i < merged(list, link).len() ==> (#[trigger] merged(list, link)[i]).to == link.to
                || leads_to(list, merged(list, link)[i].to),
{
    lemma_first_aim(list, link.to, link.dir);
    let j = first_aim(list, link.to, link.dir);
    let out = merged(list, link);
    assert forall|i: int| 0 <= i < out.len() implies (#[trigger] out[i]).to == link.to || leads_to(
        list,
        out[i].to,
    ) by {
        if j < list.len() {
            if list[j].cost > link.cost {
                if i != j {
                    assert(out[i] == list[i]);
                }
                assert(list[i].to == out[i].to);
            } else {
                assert(list[i].to == out[i].to);
            }
        } else {
            lemma_part_point(list, link.dir.code());
            let p = part_point(list, link.dir.code());
            if i < p {
                assert(out[i] == list[i]);
                assert(list[i].to == out[i].to);
            } else if i > p {
                assert(out[i] == list[i - 1]);
                assert(list[i - 1].to == out[i].to);
            }
        }
    }
}

/// Sweeping the mates of the links of `key` out leaves only links that
/// were there.
pub proof fn lemma_swept_sub(adj: Seq<Seq<LinkView>>, key: int, links: Seq<LinkView>)
    ensures
        swept(adj, key, links).len() == adj.len(),
        forall|u: int, i: int|
            0 <= u < adj.len() && 0 <= i < swept(adj, key, links)[u].len() ==> leads_to(
                adj[u],
                (#[trigger] swept(adj, key, links)[u][i]).to,
            ),
    decreases links.len(),
{
    let out = swept(adj, key, links);
    if links.len() == 0 {
        assert forall|u: int, i: int| 0 <= u < adj.len() && 0 <= i < out[u].len() implies leads_to(
            adj[u],
            (#[trigger] out[u][i]).to,
        ) by {
            assert(adj[u][i].to == out[u][i].to);
        }
    } else {
        let next = unmated(adj, key, links[0]);
        let t = links[0].to;
        lemma_swept_sub(next, key, links.skip(1));
        assert forall|u: int, i: int| 0 <= u < adj.len() && 0 <= i < out[u].len() implies leads_to(
            adj[u],
            (#[trigger] out[u][i]).to,
        ) by {
            assert(leads_to(next[u], out[u][i].to));
            let j = choose|j: int| 0 <= j < next[u].len() && (#[trigger] next[u][j]).to == out[u][i].to;
            if 0 <= t < adj.len() && t != key && u == t {
                let d = links[0].dir.flipped();
                lemma_first_aim(adj[u], key, d);
                let r = first_aim(adj[u], key, d);
                if r < adj[u].len() {
                    if j < r {
                        assert(next[u][j] == adj[u][j]);
                        assert(adj[u][j].to == out[u][i].to);
                    } else {
                        assert(next[u][j] == adj[u][j + 1]);
                        assert(adj[u][j + 1].to == out[u][i].to);
                    }
                } else {
                    assert(adj[u][j].to == out[u][i].to);
                }
            } else {
                assert(next[u] == adj[u]);
                assert(adj[u][j].to == out[u][i].to);
            }
        }
    }
}

/// In a paired array a node has no link to a node without links.
pub proof fn lemma_no_link_to_bare(adj: Seq<Seq<LinkView>>, key: int, u: int, i: int)
    requires
        paired(adj),
        0 <= key < adj.len(),
        adj[key].len() == 0,
        0 <= u < adj.len(),
        0 <= i < adj[u].len(),
    ensures
        adj[u][i].to != key,
{
    if adj[u][i].to == key {
        lemma_costs_to_holds(adj[u], i);
        let d = adj[u][i].dir;
        assert(costs_to(adj[key], u, d.flipped()) =~= Seq::<int>::empty());
        if d == IdxLinkDir::Forward {
            assert(costs_to(adj[u], key, IdxLinkDir::Forward) == costs_to(
                adj[key],
                u,
                IdxLinkDir::Backward,
            ));
        } else {
            assert(costs_to(adj[key], u, IdxLinkDir::Forward) == costs_to(
                adj[u],
                key,
                IdxLinkDir::Backward,
            ));
        }
        assert(false);
    }
}

/// The contraction of a node keeps the links of every node within two
/// nodes: a neighbour loses its links to the node and gets links to the
/// other neighbour at most.
pub proof fn lemma_narrow_contracted(
    adj0: Seq<Seq<LinkView>>,
    key: IdxNodeKey,
    nb: Seq<LinkView>,
    found: Seq<CHContraction>,
    adj1: Seq<Seq<LinkView>>,
)
    requires
        in_range(adj1),
        all_grouped(adj1),
        all_two_ended(adj0),
        two_ended(nb),
        paired_but(adj0, key.0 as int, nb),
        paired_but(adj1, key.0 as int, nb),
        targets_within(nb, adj0.len() as int),
        forall|k: int| 0 <= k < found.len() ==> via_shape(nb, key, #[trigger] found[k]),
        grown(adj0, found, adj1),
    ensures
        all_two_ended(swept(adj1, key.0 as int, nb)),
{
    let k0 = key.0 as int;
    let out = swept(adj1, k0, nb);
    lemma_swept(adj1, k0, nb);
    lemma_swept_sub(adj1, k0, nb);
    let (p, q) = choose|p: int, q: int| #[trigger] ends_in(nb, p, q);
    assert forall|u: int| 0 <= u < out.len() implies two_ended(#[trigger] out[u]) by {
        let (x, y) = choose|x: int, y: int| #[trigger] ends_in(adj0[u], x, y);
        if exists|t: int| #[trigger] joined(found, u, t) {
            let t0 = choose|t: int| #[trigger] joined(found, u, t);
            let m = choose|m: int|
                0 <= m < found.len() && ((#[trigger] found[m]).snode_idx.0 == u
                    && found[m].enode_idx.0 == t0 || found[m].enode_idx.0 == u
                    && found[m].snode_idx.0 == t0);
            assert(via_shape(nb, key, found[m]));
            let (b, f) = choose|b: int, f: int| #[trigger] from_pair(nb, found[m], b, f);
            // the node is a neighbour: its links led to the contracted node
            let at = if found[m].snode_idx.0 == u {
                b
            } else {
                f
            };
            assert(nb[at].to == u);
            assert(u != k0);
            lemma_costs_to_holds(nb, at);
            assert(costs_to(nb, u, nb[at].dir) == costs_to(adj0[u], k0, nb[at].dir.flipped()));
            lemma_costs_to_found(adj0[u], k0, nb[at].dir.flipped(), nb[at].cost);
            let j = choose|j: int|
                0 <= j < adj0[u].len() && #[trigger] adj0[u][j] == (LinkView {
                    to: k0,
                    cost: nb[at].cost,
                    dir: nb[at].dir.flipped(),
                });
            assert(adj0[u][j].to == x || adj0[u][j].to == y);
            let other = if x == k0 {
                y
            } else {
                x
            };
            let z = if p == u {
                q
            } else {
                p
            };
            assert forall|i: int| 0 <= i < out[u].len() implies (#[trigger] out[u][i]).to == other
                || out[u][i].to == z by {
                let t = out[u][i].to;
                lemma_no_link_to_bare(out, k0, u, i);
                assert(leads_to(adj1[u], t));
                let r = choose|r: int| 0 <= r < adj1[u].len() && (#[trigger] adj1[u][r]).to == t;
                if leads_to(adj0[u], t) {
                    let w = choose|w: int| 0 <= w < adj0[u].len() && (#[trigger] adj0[u][w]).to == t;
                    assert(adj0[u][w].to == x || adj0[u][w].to == y);
                } else {
                    assert(joined(found, u, adj1[u][r].to));
                    let m2 = choose|m2: int|
                        0 <= m2 < found.len() && ((#[trigger] found[m2]).snode_idx.0 == u
                            && found[m2].enode_idx.0 == t || found[m2].enode_idx.0 == u
                            && found[m2].snode_idx.0 == t);
                    assert(via_shape(nb, key, found[m2]));
                    let (b2, f2) = choose|b2: int, f2: int| #[trigger]
                        from_pair(nb, found[m2], b2, f2);
                    assert(nb[b2].to == p || nb[b2].to == q);
                    assert(nb[f2].to == p || nb[f2].to == q);
                }
            }
            assert(ends_in(out[u], other, z));
        } else {
            assert forall|i: int| 0 <= i < out[u].len() implies (#[trigger] out[u][i]).to == x
                || out[u][i].to == y by {
                let t = out[u][i].to;
                assert(leads_to(adj1[u], t));
                let r = choose|r: int| 0 <= r < adj1[u].len() && (#[trigger] adj1[u][r]).to == t;
                assert(leads_to(adj0[u], t) || joined(found, u, adj1[u][r].to));
                assert(!joined(found, u, t));
                let w = choose|w: int| 0 <= w < adj0[u].len() && (#[trigger] adj0[u][w]).to == t;
                assert(adj0[u][w].to == x || adj0[u][w].to == y);
            }
            assert(ends_in(out[u], x, y));
        }
    }
}

/// A list without two links to the same node in the same direction whose
/// links lead to at most two nodes has at most four links.
pub proof fn lemma_narrow_len(list: Seq<LinkView>)
    requires
        plain_list(list),
        two_ended(list),
    ensures
        list.len() <= 4,
{
    if list.len() >= 5 {
        let (x, y) = choose|x: int, y: int| #[trigger] ends_in(list, x, y);
        assert(list[0].to == x || list[0].to == y);
        assert(list[1].to == x || list[1].to == y);
        assert(list[2].to == x || list[2].to == y);
        assert(list[3].to == x || list[3].to == y);
        assert(list[4].to == x || list[4].to == y);
        lemma_same_aim(list, 0, 1);
        lemma_same_aim(list, 0, 2);
        lemma_same_aim(list, 0, 3);
        lemma_same_aim(list, 0, 4);
        lemma_same_aim(list, 1, 2);
        lemma_same_aim(list, 1, 3);
        lemma_same_aim(list, 1, 4);
        lemma_same_aim(list, 2, 3);
        lemma_same_aim(list, 2, 4);
        lemma_same_aim(list, 3, 4);
    }
}

/// Two links of a list without two links to the same node in the same
/// direction differ in where they lead or in their direction.
pub proof fn lemma_same_aim(list: Seq<LinkView>, i: int, j: int)
    requires
        plain_list(list),
        0 <= i < j < list.len(),
    ensures
        list[i].to != list[j].to || list[i].dir != list[j].dir,
{
    if list[i].to == list[j].to && list[i].dir == list[j].dir {
        lemma_two_aims(list, i, j, list[i].to, list[i].dir);
        assert(costs_to(list, list[i].to, list[i].dir).len() <= 1);
    }
}

/// The nodes that are left in a narrow array have at most four links each,
/// and the others none: the links number at most four times the nodes
/// left.
pub proof fn lemma_narrow_total(adj: Seq<Seq<LinkView>>, ranks: Seq<u32>, k: int)
    requires
        adj.len() == ranks.len(),
        0 <= k <= adj.len(),
        narrow(adj),
        isolated(adj, ranks),
    ensures
        contracted(ranks.take(k)).finite(),
        contracted(ranks.take(k)).len() <= k,
        crate::builder::link_total(adj.take(k)) <= 4 * (k - contracted(ranks.take(k)).len()),
    decreases k,
{
    if k == 0 {
        assert(contracted(ranks.take(0)) =~= Set::<int>::empty());
        assert(adj.take(0) =~= Seq::<Seq<LinkView>>::empty());
    } else {
        lemma_narrow_total(adj, ranks, k - 1);
        let before = contracted(ranks.take(k - 1));
        let now = contracted(ranks.take(k));
        assert(adj.take(k).drop_last() =~= adj.take(k - 1));
        assert(adj.take(k).last() == adj[k - 1]);
        if ranks[k - 1] != u32::MAX {
            assert(now =~= before.insert(k - 1)) by {
                assert forall|u: int| now.contains(u) <==> before.insert(k - 1).contains(u) by {
                    if 0 <= u < k - 1 {
                        assert(ranks.take(k)[u] == ranks.take(k - 1)[u]);
                    }
                    if u == k - 1 {
                        assert(ranks.take(k)[u] == ranks[k - 1]);
                    }
                }
            }
            assert(!before.contains(k - 1));
            assert(adj[k - 1].len() == 0);
        } else {
            assert(now =~= before) by {
                assert forall|u: int| now.contains(u) <==> before.contains(u) by {
                    if 0 <= u < k - 1 {
                        assert(ranks.take(k)[u] == ranks.take(k - 1)[u]);
                    }
                    if u == k - 1 {
                        assert(ranks.take(k)[u] == ranks[k - 1]);
                    }
                }
            }
            assert(plain_list(adj[k - 1]));
            assert(two_ended(adj[k - 1]));
            lemma_narrow_len(adj[k - 1]);
        }
    }
}

/// Merging the arc of one more shortcut in keeps each link leading where a
/// link led at first or along one of the shortcuts.
pub proof fn lemma_grown_step(
    adj0: Seq<Seq<LinkView>>,
    found: Seq<CHContraction>,
    i: int,
    cur: Seq<Seq<LinkView>>,
)
    requires
        0 <= i < found.len(),
        all_grouped(cur),
        grown(adj0, found.take(i), cur),
        0 <= found[i].snode_idx.0 < cur.len(),
        0 <= found[i].enode_idx.0 < cur.len(),
        found[i].snode_idx.0 != found[i].enode_idx.0,
    ensures
        grown(
            adj0,
            found.take(i + 1),
            with_arc(
                cur,
                found[i].snode_idx.0 as int,
                found[i].enode_idx.0 as int,
                found[i].length as int,
            ),
        ),
{
    let s = found[i].snode_idx.0 as int;
    let e = found[i].enode_idx.0 as int;
    let len = found[i].length as int;
    let fl = LinkView { to: e, cost: len, dir: IdxLinkDir::Forward };
    let bl = LinkView { to: s, cost: len, dir: IdxLinkDir::Backward };
    let first = cur.update(s, merged(cur[s], fl));
    let next = with_arc(cur, s, e, len);
    assert(next == first.update(e, merged(first[e], bl)));
    assert(first[e] == cur[e]);
    lemma_merged_ends(cur[s], fl);
    lemma_merged_ends(cur[e], bl);
    let had = found.take(i);
    let has = found.take(i + 1);
    assert(has[i] == found[i]);
    assert forall|u: int, t: int| joined(had, u, t) implies joined(has, u, t) by {
        let m = choose|m: int|
            0 <= m < had.len() && ((#[trigger] had[m]).snode_idx.0 == u && had[m].enode_idx.0 == t
                || had[m].enode_idx.0 == u && had[m].snode_idx.0 == t);
        assert(has[m] == had[m]);
    }
    assert forall|u: int, k: int| 0 <= u < next.len() && 0 <= k < next[u].len() implies leads_to(
        adj0[u],
        (#[trigger] next[u][k]).to,
    ) || joined(has, u, next[u][k].to) by {
        let t = next[u][k].to;
        if u == s {
            assert(next[u] == merged(cur[s], fl));
            if t == e {
                assert(has[i].snode_idx.0 == u && has[i].enode_idx.0 == t);
                assert(joined(has, u, t));
            } else {
                assert(leads_to(cur[s], t));
                let j = choose|j: int| 0 <= j < cur[s].len() && (#[trigger] cur[s][j]).to == t;
                assert(leads_to(adj0[u], cur[u][j].to) || joined(had, u, cur[u][j].to));
            }
        } else if u == e {
            assert(next[u] == merged(cur[e], bl));
            if t == s {
                assert(has[i].enode_idx.0 == u && has[i].snode_idx.0 == t);
                assert(joined(has, u, t));
            } else {
                assert(leads_to(cur[e], t));
                let j = choose|j: int| 0 <= j < cur[e].len() && (#[trigger] cur[e][j]).to == t;
                assert(leads_to(adj0[u], cur[u][j].to) || joined(had, u, cur[u][j].to));
            }
        } else {
            assert(next[u] == cur[u]);
            assert(leads_to(adj0[u], cur[u][k].to) || joined(had, u, cur[u][k].to));
        }
    }
}

} // verus!
