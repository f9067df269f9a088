//! What one contraction does to the working adjacency: arcs are merged in at
//! both ends, and the links to the contracted node are swept out.

use crate::adjacency::{all_grouped, costs_to, grouped, in_range, paired, targets_within};
use crate::network::{IdxLinkDir, LinkView};
use crate::pairing::{
    aims, lemma_costs_mean_link, lemma_insert_costs, lemma_insert_grouped, lemma_remove_costs,
    lemma_remove_grouped, lemma_reprice_costs, lemma_reprice_grouped, none_before, parts_at,
    repriced,
};
use vstd::prelude::*;

verus! {

/// The position of the first link that leads to `t` in direction `dir`, or
/// the length of the list where there is none.
pub open spec fn first_aim(list: Seq<LinkView>, t: int, dir: IdxLinkDir) -> int
    decreases list.len(),
{
    if list.len() == 0 {
        0
    } else if aims(list[0], t, dir) {
        0
    } else {
        1 + first_aim(list.skip(1), t, dir)
    }
}

/// The position of the first link whose direction code is above `code`, or
/// the length of the list where there is none.
pub open spec fn part_point(list: Seq<LinkView>, code: u32) -> int
    decreases list.len(),
{
    if list.len() == 0 {
        0
    } else if list[0].dir.code() > code {
        0
    } else {
        1 + part_point(list.skip(1), code)
    }
}

/// The first link that leads to `t` in direction `dir` is within the list or
/// at its end, and no link before it leads there.
pub proof fn lemma_first_aim(list: Seq<LinkView>, t: int, dir: IdxLinkDir)
    ensures
        0 <= first_aim(list, t, dir) <= list.len(),
        none_before(list, first_aim(list, t, dir), t, dir),
        first_aim(list, t, dir) < list.len() ==> aims(list[first_aim(list, t, dir)], t, dir),
    decreases list.len(),
{
    if list.len() > 0 && !aims(list[0], t, dir) {
        let rest = list.skip(1);
        lemma_first_aim(rest, t, dir);
        let r = first_aim(rest, t, dir);
        assert forall|i: int| 0 <= i < r + 1 && i < list.len() implies !aims(
            #[trigger] list[i],
            t,
            dir,
        ) by {
            if i > 0 {
                assert(list[i] == rest[i - 1]);
            }
        }
        if r < rest.len() {
            assert(list[r + 1] == rest[r]);
        }
    }
}

/// The first link to a neighbour is where no earlier link leads to it.
pub proof fn lemma_first_aim_is(list: Seq<LinkView>, j: int, t: int, dir: IdxLinkDir)
    requires
        0 <= j <= list.len(),
        none_before(list, j, t, dir),
        j < list.len() ==> aims(list[j], t, dir),
    ensures
        first_aim(list, t, dir) == j,
    decreases list.len(),
{
    if list.len() == 0 {
    } else if j == 0 {
    } else {
        assert(!aims(list[0], t, dir));
        let rest = list.skip(1);
        assert forall|i: int| 0 <= i < j - 1 && i < rest.len() implies !aims(
            #[trigger] rest[i],
            t,
            dir,
        ) by {
            assert(rest[i] == list[i + 1]);
        }
        if j < list.len() {
            assert(rest[j - 1] == list[j]);
        }
        lemma_first_aim_is(rest, j - 1, t, dir);
    }
}

/// A list parts by a code at one position only.
pub proof fn lemma_part_point_is(list: Seq<LinkView>, code: u32, p: int)
    requires
        parts_at(list, code, p),
    ensures
        part_point(list, code) == p,
    decreases list.len(),
{
    if list.len() == 0 {
    } else if p == 0 {
        assert(list[0].dir.code() > code);
    } else {
        assert(list[0].dir.code() <= code);
        let rest = list.skip(1);
        assert forall|i: int| 0 <= i < p - 1 implies (#[trigger] rest[i]).dir.code() <= code by {
            assert(rest[i] == list[i + 1]);
        }
        assert forall|i: int| p - 1 <= i < rest.len() implies (#[trigger] rest[i]).dir.code()
            > code by {
            assert(rest[i] == list[i + 1]);
        }
        lemma_part_point_is(rest, code, p - 1);
    }
}

/// Where the `Forward` links come first, the list parts by either code.
pub proof fn lemma_part_point(list: Seq<LinkView>, code: u32)
    requires
        grouped(list),
        code == 1 || code == 2,
    ensures
        parts_at(list, code, part_point(list, code)),
    decreases list.len(),
{
    if list.len() > 0 {
        let rest = list.skip(1);
        assert forall|i: int, j: int|
            0 <= i < j < rest.len() && (#[trigger] rest[i]).dir
                == IdxLinkDir::Backward implies (#[trigger] rest[j]).dir
            == IdxLinkDir::Backward by {
            assert(rest[i] == list[i + 1]);
            assert(rest[j] == list[j + 1]);
        }
        lemma_part_point(rest, code);
        let p = part_point(list, code);
        if list[0].dir.code() > code {
            assert(list[0].dir == IdxLinkDir::Backward);
            assert forall|i: int| 0 <= i < list.len() implies (#[trigger] list[i]).dir.code()
                > code by {
                if i > 0 {
                    assert(list[0].dir == IdxLinkDir::Backward);
                }
            }
        } else {
            let q = part_point(rest, code);
            assert forall|i: int| 0 <= i < p implies (#[trigger] list[i]).dir.code() <= code by {
                if i > 0 {
                    assert(list[i] == rest[i - 1]);
                }
            }
            assert forall|i: int| p <= i < list.len() implies (#[trigger] list[i]).dir.code()
                > code by {
                assert(list[i] == rest[i - 1]);
            }
        }
    }
}

/// The list after `link` was merged in: where the list has a link to the
/// same node in the same direction, the first such link takes the lower of
/// the two costs; where it has none, `link` goes behind the links of its own
/// direction code or a lower one.
pub open spec fn merged(list: Seq<LinkView>, link: LinkView) -> Seq<LinkView> {
    let j = first_aim(list, link.to, link.dir);
    if j < list.len() {
        if list[j].cost > link.cost {
            list.update(j, repriced(list[j], link.cost))
        } else {
            list
        }
    } else {
        list.insert(part_point(list, link.dir.code()), link)
    }
}

/// The costs after `cost` was merged in: alone where there were none, else
/// in place of the first where that was higher.
pub open spec fn merged_costs(costs: Seq<int>, cost: int) -> Seq<int> {
    if costs.len() == 0 {
        seq![cost]
    } else if costs[0] > cost {
        costs.update(0, cost)
    } else {
        costs
    }
}

/// The list without its first link to `t` in direction `dir`.
pub open spec fn without_first(list: Seq<LinkView>, t: int, dir: IdxLinkDir) -> Seq<LinkView> {
    let j = first_aim(list, t, dir);
    if j < list.len() {
        list.remove(j)
    } else {
        list
    }
}

/// Merging a link in merges its cost into the costs for its neighbour and
/// leaves the others.
pub proof fn lemma_merged_costs(list: Seq<LinkView>, link: LinkView, t: int, dir: IdxLinkDir)
    requires
        grouped(list),
    ensures
        costs_to(merged(list, link), t, dir) == if aims(link, t, dir) {
            merged_costs(costs_to(list, t, dir), link.cost)
        } else {
            costs_to(list, t, dir)
        },
{
    lemma_first_aim(list, link.to, link.dir);
    let j = first_aim(list, link.to, link.dir);
    if j < list.len() {
        lemma_reprice_costs(list, j, link.cost, t, dir);
        lemma_reprice_costs(list, j, list[j].cost, t, dir);
    } else {
        let p = part_point(list, link.dir.code());
        lemma_part_point(list, link.dir.code());
        lemma_insert_costs(list, p, link, t, dir);
    }
}

/// Merging a link in keeps the `Forward` links first and the list in range.
pub proof fn lemma_merged_shape(list: Seq<LinkView>, link: LinkView, n: int)
    requires
        grouped(list),
        targets_within(list, n),
        0 <= link.to < n,
    ensures
        grouped(merged(list, link)),
        targets_within(merged(list, link), n),
        merged(list, link).len() >= list.len(),
        merged(list, link).len() > 0,
{
    lemma_first_aim(list, link.to, link.dir);
    let j = first_aim(list, link.to, link.dir);
    let after = merged(list, link);
    if j < list.len() {
        lemma_reprice_grouped(list, j, link.cost);
        assert forall|i: int| 0 <= i < after.len() implies 0 <= (#[trigger] after[i]).to < n by {
            assert(after[i].to == list[i].to);
        }
    } else {
        let p = part_point(list, link.dir.code());
        lemma_part_point(list, link.dir.code());
        lemma_insert_grouped(list, p, link);
        assert forall|i: int| 0 <= i < after.len() implies 0 <= (#[trigger] after[i]).to < n by {
            if i < p {
                assert(after[i] == list[i]);
            } else if i > p {
                assert(after[i] == list[i - 1]);
            }
        }
    }
}

/// Taking the first link to a neighbour out takes the first cost for that
/// neighbour out and leaves the others.
pub proof fn lemma_without_first_costs(
    list: Seq<LinkView>,
    x: int,
    xdir: IdxLinkDir,
    t: int,
    dir: IdxLinkDir,
)
    ensures
        costs_to(without_first(list, x, xdir), t, dir) == if t == x && dir == xdir && costs_to(
            list,
            t,
            dir,
        ).len() > 0 {
            costs_to(list, t, dir).skip(1)
        } else {
            costs_to(list, t, dir)
        },
{
    lemma_first_aim(list, x, xdir);
    let j = first_aim(list, x, xdir);
    if j < list.len() {
        lemma_remove_costs(list, j, t, dir);
    } else {
        if t == x && dir == xdir {
            if costs_to(list, t, dir).len() > 0 {
                lemma_costs_mean_link(list, t, dir);
            }
        }
    }
}

/// Taking a link out keeps the `Forward` links first and the list in range.
pub proof fn lemma_without_first_shape(list: Seq<LinkView>, x: int, xdir: IdxLinkDir, n: int)
    requires
        grouped(list),
        targets_within(list, n),
    ensures
        grouped(without_first(list, x, xdir)),
        targets_within(without_first(list, x, xdir), n),
{
    lemma_first_aim(list, x, xdir);
    let j = first_aim(list, x, xdir);
    if j < list.len() {
        lemma_remove_grouped(list, j);
        let after = list.remove(j);
        assert forall|i: int| 0 <= i < after.len() implies 0 <= (#[trigger] after[i]).to < n by {
            if i < j {
                assert(after[i] == list[i]);
            } else {
                assert(after[i] == list[i + 1]);
            }
        }
    }
}

/// Every arc between two nodes other than `key` stands at both its ends in
/// the same order, the list of `key` is empty, and `rest` holds what pairs
/// with the links that the other nodes still have to `key`.
pub open spec fn paired_but(adj: Seq<Seq<LinkView>>, key: int, rest: Seq<LinkView>) -> bool {
    &&& forall|u: int, v: int|
        0 <= u < adj.len() && 0 <= v < adj.len() && u != key && v != key ==> #[trigger] costs_to(
            adj[u],
            v,
            IdxLinkDir::Forward,
        ) == costs_to(adj[v], u, IdxLinkDir::Backward)
    &&& forall|v: int, dir: IdxLinkDir|
        0 <= v < adj.len() && v != key ==> #[trigger] costs_to(rest, v, dir) == costs_to(
            adj[v],
            key,
            dir.flipped(),
        )
    &&& 0 <= key < adj.len() && adj[key].len() == 0
}

/// Taking the list of a node out of a paired array leaves the array paired
/// but for that node, with the list as what pairs.
pub proof fn lemma_taken_out(adj: Seq<Seq<LinkView>>, key: int)
    requires
        paired(adj),
        0 <= key < adj.len(),
    ensures
        paired_but(adj.update(key, Seq::<LinkView>::empty()), key, adj[key]),
{
    let out = adj.update(key, Seq::<LinkView>::empty());
    assert forall|u: int, v: int|
        0 <= u < out.len() && 0 <= v < out.len() && u != key && v != key implies #[trigger] costs_to(
        out[u],
        v,
        IdxLinkDir::Forward,
    ) == costs_to(out[v], u, IdxLinkDir::Backward) by {
        assert(costs_to(adj[u], v, IdxLinkDir::Forward) == costs_to(
            adj[v],
            u,
            IdxLinkDir::Backward,
        ));
    }
    assert forall|v: int, dir: IdxLinkDir|
        0 <= v < out.len() && v != key implies #[trigger] costs_to(adj[key], v, dir) == costs_to(
        out[v],
        key,
        dir.flipped(),
    ) by {
        if dir == IdxLinkDir::Forward {
            assert(costs_to(adj[key], v, IdxLinkDir::Forward) == costs_to(
                adj[v],
                key,
                IdxLinkDir::Backward,
            ));
        } else {
            assert(costs_to(adj[v], key, IdxLinkDir::Forward) == costs_to(
                adj[key],
                v,
                IdxLinkDir::Backward,
            ));
        }
    }
}

/// Putting the list of a node back restores the paired array.
pub proof fn lemma_put_back(adj: Seq<Seq<LinkView>>, key: int, rest: Seq<LinkView>)
    requires
        paired_but(adj, key, rest),
        costs_to(rest, key, IdxLinkDir::Forward) == costs_to(rest, key, IdxLinkDir::Backward),
    ensures
        paired(adj.update(key, rest)),
{
    let back = adj.update(key, rest);
    assert forall|u: int, v: int| 0 <= u < back.len() && 0 <= v < back.len() implies #[trigger] costs_to(
        back[u],
        v,
        IdxLinkDir::Forward,
    ) == costs_to(back[v], u, IdxLinkDir::Backward) by {
        if u != key && v != key {
            assert(costs_to(adj[u], v, IdxLinkDir::Forward) == costs_to(
                adj[v],
                u,
                IdxLinkDir::Backward,
            ));
        } else if u == key && v != key {
            assert(costs_to(rest, v, IdxLinkDir::Forward) == costs_to(
                adj[v],
                key,
                IdxLinkDir::Forward.flipped(),
            ));
        } else if u != key && v == key {
            assert(costs_to(rest, u, IdxLinkDir::Backward) == costs_to(
                adj[u],
                key,
                IdxLinkDir::Backward.flipped(),
            ));
        }
    }
}

/// Once nothing is left to pair, the array is paired.
pub proof fn lemma_swept_clean(adj: Seq<Seq<LinkView>>, key: int)
    requires
        paired_but(adj, key, Seq::<LinkView>::empty()),
    ensures
        paired(adj),
{
    assert(adj[key] =~= Seq::<LinkView>::empty());
    assert(adj.update(key, Seq::<LinkView>::empty()) =~= adj);
    lemma_put_back(adj, key, Seq::<LinkView>::empty());
}

/// The array after the arc from `s` to `e` of cost `cost` was merged in at
/// both its ends.
pub open spec fn with_arc(adj: Seq<Seq<LinkView>>, s: int, e: int, cost: int) -> Seq<
    Seq<LinkView>,
> {
    let first = adj.update(
        s,
        merged(adj[s], LinkView { to: e, cost: cost, dir: IdxLinkDir::Forward }),
    );
    first.update(e, merged(first[e], LinkView { to: s, cost: cost, dir: IdxLinkDir::Backward }))
}

/// Merging an arc between two nodes other than `key` in at both ends keeps
/// the array paired but for `key`, in range, and the `Forward` links first.
pub proof fn lemma_with_arc(
    adj: Seq<Seq<LinkView>>,
    key: int,
    rest: Seq<LinkView>,
    s: int,
    e: int,
    cost: int,
)
    requires
        in_range(adj),
        all_grouped(adj),
        0 <= s < adj.len(),
        0 <= e < adj.len(),
        s != e,
        s != key,
        e != key,
        paired_but(adj, key, rest),
    ensures
        in_range(with_arc(adj, s, e, cost)),
        all_grouped(with_arc(adj, s, e, cost)),
        paired_but(with_arc(adj, s, e, cost), key, rest),
        with_arc(adj, s, e, cost).len() == adj.len(),
        forall|u: int|
            0 <= u < adj.len() ==> (#[trigger] with_arc(adj, s, e, cost)[u]).len() >= adj[u].len(),
        with_arc(adj, s, e, cost)[s].len() > 0,
        with_arc(adj, s, e, cost)[e].len() > 0,
        forall|u: int|
            0 <= u < adj.len() && u != s && u != e ==> #[trigger] with_arc(adj, s, e, cost)[u]
                == adj[u],
{
    let f = LinkView { to: e, cost: cost, dir: IdxLinkDir::Forward };
    let b = LinkView { to: s, cost: cost, dir: IdxLinkDir::Backward };
    let n = adj.len() as int;
    let after = with_arc(adj, s, e, cost);
    assert(after[s] == merged(adj[s], f));
    assert(after[e] == merged(adj[e], b));
    assert(targets_within(adj[s], n));
    assert(targets_within(adj[e], n));
    assert(grouped(adj[s]));
    assert(grouped(adj[e]));
    lemma_merged_shape(adj[s], f, n);
    lemma_merged_shape(adj[e], b, n);
    assert forall|u: int| 0 <= u < after.len() implies targets_within(#[trigger] after[u], n)
        && grouped(after[u]) && after[u].len() >= adj[u].len() by {
        if u != s && u != e {
            assert(after[u] == adj[u]);
            assert(targets_within(adj[u], n));
            assert(grouped(adj[u]));
        }
    }
    assert forall|u: int, v: int|
        0 <= u < after.len() && 0 <= v < after.len() && u != key && v != key implies #[trigger] costs_to(
        after[u],
        v,
        IdxLinkDir::Forward,
    ) == costs_to(after[v], u, IdxLinkDir::Backward) by {
        assert(costs_to(adj[u], v, IdxLinkDir::Forward) == costs_to(
            adj[v],
            u,
            IdxLinkDir::Backward,
        ));
        assert(grouped(adj[u]));
        assert(grouped(adj[v]));
        if u == s {
            lemma_merged_costs(adj[s], f, v, IdxLinkDir::Forward);
        } else if u == e {
            lemma_merged_costs(adj[e], b, v, IdxLinkDir::Forward);
        }
        if v == e {
            lemma_merged_costs(adj[e], b, u, IdxLinkDir::Backward);
        } else if v == s {
            lemma_merged_costs(adj[s], f, u, IdxLinkDir::Backward);
        }
    }
    assert forall|v: int, dir: IdxLinkDir|
        0 <= v < after.len() && v != key implies #[trigger] costs_to(rest, v, dir) == costs_to(
        after[v],
        key,
        dir.flipped(),
    ) by {
        assert(costs_to(rest, v, dir) == costs_to(adj[v], key, dir.flipped()));
        assert(grouped(adj[v]));
        if v == s {
            lemma_merged_costs(adj[s], f, key, dir.flipped());
        } else if v == e {
            lemma_merged_costs(adj[e], b, key, dir.flipped());
        }
    }
}

/// The array after the mate of `link`, a link of `key`, was taken out: the
/// first link to `key` in the other direction at the node `link` leads to.
pub open spec fn unmated(adj: Seq<Seq<LinkView>>, key: int, link: LinkView) -> Seq<Seq<LinkView>> {
    if 0 <= link.to < adj.len() && link.to != key {
        adj.update(link.to, without_first(adj[link.to], key, link.dir.flipped()))
    } else {
        adj
    }
}

/// The array after the mates of all of `links`, links of `key`, were taken
/// out, one after the other.
pub open spec fn swept(adj: Seq<Seq<LinkView>>, key: int, links: Seq<LinkView>) -> Seq<
    Seq<LinkView>,
>
    decreases links.len(),
{
    if links.len() == 0 {
        adj
    } else {
        swept(unmated(adj, key, links[0]), key, links.skip(1))
    }
}

/// Taking the mate of the first of the links that are left to pair out keeps
/// the array paired but for `key`, with the other links left.
pub proof fn lemma_unmated(adj: Seq<Seq<LinkView>>, key: int, rest: Seq<LinkView>)
    requires
        in_range(adj),
        all_grouped(adj),
        paired_but(adj, key, rest),
        rest.len() > 0,
        0 <= rest[0].to < adj.len(),
    ensures
        in_range(unmated(adj, key, rest[0])),
        all_grouped(unmated(adj, key, rest[0])),
        paired_but(unmated(adj, key, rest[0]), key, rest.skip(1)),
        unmated(adj, key, rest[0]).len() == adj.len(),
        forall|u: int|
            0 <= u < adj.len() ==> (#[trigger] unmated(adj, key, rest[0])[u]).len()
                <= adj[u].len(),
{
    let x = rest[0];
    let t = x.to;
    let n = adj.len() as int;
    let after = unmated(adj, key, x);
    let tail = rest.skip(1);
    assert(rest =~= seq![x] + tail);
    assert forall|v: int, dir: IdxLinkDir| #[trigger]
        costs_to(tail, v, dir) == if aims(x, v, dir) {
            costs_to(rest, v, dir).skip(1)
        } else {
            costs_to(rest, v, dir)
        } && (aims(x, v, dir) ==> costs_to(rest, v, dir).len() > 0) by {
        crate::adjacency::lemma_costs_to_concat(seq![x], tail, v, dir);
        crate::adjacency::lemma_costs_to_one(x, v, dir);
        if aims(x, v, dir) {
            assert((seq![x.cost] + costs_to(tail, v, dir)).skip(1) =~= costs_to(tail, v, dir));
        } else {
            assert(Seq::<int>::empty() + costs_to(tail, v, dir) =~= costs_to(tail, v, dir));
        }
    }
    if t != key {
        assert(targets_within(adj[t], n));
        assert(grouped(adj[t]));
        lemma_without_first_shape(adj[t], key, x.dir.flipped(), n);
        lemma_first_aim(adj[t], key, x.dir.flipped());
    }
    assert forall|u: int| 0 <= u < after.len() implies targets_within(#[trigger] after[u], n)
        && grouped(after[u]) && after[u].len() <= adj[u].len() by {
        if u != t || t == key {
            assert(after[u] == adj[u]);
            assert(targets_within(adj[u], n));
            assert(grouped(adj[u]));
        }
    }
    assert forall|u: int, v: int|
        0 <= u < after.len() && 0 <= v < after.len() && u != key && v != key implies #[trigger] costs_to(
        after[u],
        v,
        IdxLinkDir::Forward,
    ) == costs_to(after[v], u, IdxLinkDir::Backward) by {
        assert(costs_to(adj[u], v, IdxLinkDir::Forward) == costs_to(
            adj[v],
            u,
            IdxLinkDir::Backward,
        ));
        if t != key {
            if u == t {
                lemma_without_first_costs(adj[t], key, x.dir.flipped(), v, IdxLinkDir::Forward);
            }
            if v == t {
                lemma_without_first_costs(adj[t], key, x.dir.flipped(), u, IdxLinkDir::Backward);
            }
        }
    }
    assert forall|v: int, dir: IdxLinkDir|
        0 <= v < after.len() && v != key implies #[trigger] costs_to(tail, v, dir) == costs_to(
        after[v],
        key,
        dir.flipped(),
    ) by {
        assert(costs_to(rest, v, dir) == costs_to(adj[v], key, dir.flipped()));
        if t != key && v == t {
            lemma_without_first_costs(adj[t], key, x.dir.flipped(), key, dir.flipped());
        }
    }
}

/// Sweeping the mates of all the links of `key` out leaves a paired array,
/// in range, with the `Forward` links first, and no longer lists.
pub proof fn lemma_swept(adj: Seq<Seq<LinkView>>, key: int, rest: Seq<LinkView>)
    requires
        in_range(adj),
        all_grouped(adj),
        paired_but(adj, key, rest),
        targets_within(rest, adj.len() as int),
    ensures
        in_range(swept(adj, key, rest)),
        all_grouped(swept(adj, key, rest)),
        paired(swept(adj, key, rest)),
        swept(adj, key, rest).len() == adj.len(),
        swept(adj, key, rest)[key].len() == 0,
        forall|u: int|
            0 <= u < adj.len() ==> (#[trigger] swept(adj, key, rest)[u]).len() <= adj[u].len(),
    decreases rest.len(),
{
    if rest.len() == 0 {
        assert(rest =~= Seq::<LinkView>::empty());
        lemma_swept_clean(adj, key);
    } else {
        lemma_unmated(adj, key, rest);
        let next = unmated(adj, key, rest[0]);
        let tail = rest.skip(1);
        assert forall|i: int| 0 <= i < tail.len() implies 0 <= (#[trigger] tail[i]).to
            < adj.len() by {
            assert(tail[i] == rest[i + 1]);
        }
        lemma_swept(next, key, tail);
        assert forall|u: int| 0 <= u < adj.len() implies (#[trigger] swept(adj, key, rest)[u]).len()
            <= adj[u].len() by {
            assert(swept(next, key, tail)[u].len() <= next[u].len());
            assert(next[u].len() <= adj[u].len());
        }
    }
}

/// Merging an arc between two nodes in at both ends keeps a paired array
/// paired, in range, and the `Forward` links first.
pub proof fn lemma_with_arc_paired(adj: Seq<Seq<LinkView>>, s: int, e: int, cost: int)
    requires
        in_range(adj),
        all_grouped(adj),
        paired(adj),
        0 <= s < adj.len(),
        0 <= e < adj.len(),
        s != e,
    ensures
        in_range(with_arc(adj, s, e, cost)),
        all_grouped(with_arc(adj, s, e, cost)),
        paired(with_arc(adj, s, e, cost)),
        with_arc(adj, s, e, cost).len() == adj.len(),
        forall|u: int|
            0 <= u < adj.len() && u != s && u != e ==> #[trigger] with_arc(adj, s, e, cost)[u]
                == adj[u],
{
    let f = LinkView { to: e, cost: cost, dir: IdxLinkDir::Forward };
    let b = LinkView { to: s, cost: cost, dir: IdxLinkDir::Backward };
    let n = adj.len() as int;
    let after = with_arc(adj, s, e, cost);
    assert(after[s] == merged(adj[s], f));
    assert(after[e] == merged(adj[e], b));
    assert(targets_within(adj[s], n));
    assert(targets_within(adj[e], n));
    assert(grouped(adj[s]));
    assert(grouped(adj[e]));
    lemma_merged_shape(adj[s], f, n);
    lemma_merged_shape(adj[e], b, n);
    assert forall|u: int| 0 <= u < after.len() implies targets_within(#[trigger] after[u], n)
        && grouped(after[u]) by {
        if u != s && u != e {
            assert(after[u] == adj[u]);
            assert(targets_within(adj[u], n));
            assert(grouped(adj[u]));
        }
    }
    assert forall|u: int, v: int| 0 <= u < after.len() && 0 <= v < after.len() implies #[trigger] costs_to(
        after[u],
        v,
        IdxLinkDir::Forward,
    ) == costs_to(after[v], u, IdxLinkDir::Backward) by {
        assert(costs_to(adj[u], v, IdxLinkDir::Forward) == costs_to(
            adj[v],
            u,
            IdxLinkDir::Backward,
        ));
        assert(grouped(adj[u]));
        assert(grouped(adj[v]));
        if u == s {
            lemma_merged_costs(adj[s], f, v, IdxLinkDir::Forward);
        } else if u == e {
            lemma_merged_costs(adj[e], b, v, IdxLinkDir::Forward);
        }
        if v == e {
            lemma_merged_costs(adj[e], b, u, IdxLinkDir::Backward);
        } else if v == s {
            lemma_merged_costs(adj[s], f, u, IdxLinkDir::Backward);
        }
    }
}

/// No two links of the list lead to the same node in the same direction.
pub open spec fn plain_list(list: Seq<LinkView>) -> bool {
    forall|t: int, dir: IdxLinkDir| #[trigger] costs_to(list, t, dir).len() <= 1
}

/// No node has two links to the same node in the same direction.
pub open spec fn plain(adj: Seq<Seq<LinkView>>) -> bool {
    forall|u: int| 0 <= u < adj.len() ==> plain_list(#[trigger] adj[u])
}

/// Merging a link in keeps a list plain.
pub proof fn lemma_merged_plain(list: Seq<LinkView>, link: LinkView)
    requires
        grouped(list),
        plain_list(list),
    ensures
        plain_list(merged(list, link)),
{
    assert forall|t: int, dir: IdxLinkDir| #[trigger]
        costs_to(merged(list, link), t, dir).len() <= 1 by {
        lemma_merged_costs(list, link, t, dir);
        assert(costs_to(list, t, dir).len() <= 1);
    }
}

/// Merging an arc in at both its ends keeps an array plain.
pub proof fn lemma_with_arc_plain(adj: Seq<Seq<LinkView>>, s: int, e: int, cost: int)
    requires
        all_grouped(adj),
        plain(adj),
        0 <= s < adj.len(),
        0 <= e < adj.len(),
        s != e,
    ensures
        plain(with_arc(adj, s, e, cost)),
{
    let there = LinkView { to: e, cost: cost, dir: IdxLinkDir::Forward };
    let back = LinkView { to: s, cost: cost, dir: IdxLinkDir::Backward };
    let next = with_arc(adj, s, e, cost);
    assert(grouped(adj[s]) && grouped(adj[e]));
    assert(plain_list(adj[s]) && plain_list(adj[e]));
    lemma_merged_plain(adj[s], there);
    lemma_merged_plain(adj[e], back);
    assert forall|u: int| 0 <= u < next.len() implies plain_list(#[trigger] next[u]) by {
        if u == s {
            assert(next[u] == merged(adj[s], there));
        } else if u == e {
            assert(next[u] == merged(adj[e], back));
        } else {
            assert(next[u] == adj[u]);
            assert(plain_list(adj[u]));
        }
    }
}

/// Taking the mates of the links of a node out keeps an array plain.
pub proof fn lemma_swept_plain(adj: Seq<Seq<LinkView>>, key: int, links: Seq<LinkView>)
    requires
        plain(adj),
    ensures
        plain(swept(adj, key, links)),
    decreases links.len(),
{
    if links.len() > 0 {
        let link = links[0];
        let next = unmated(adj, key, link);
        assert forall|u: int| 0 <= u < next.len() implies plain_list(#[trigger] next[u]) by {
            assert(plain_list(adj[u]));
            if 0 <= link.to < adj.len() && link.to != key && u == link.to {
                assert forall|t: int, dir: IdxLinkDir| #[trigger]
                    costs_to(next[u], t, dir).len() <= 1 by {
                    lemma_without_first_costs(adj[u], key, link.dir.flipped(), t, dir);
                    assert(costs_to(adj[u], t, dir).len() <= 1);
                }
            } else {
                assert(next[u] == adj[u]);
            }
        }
        lemma_swept_plain(next, key, links.skip(1));
    }
}

/// Two links of a list that lead to the same node in the same direction
/// give two costs to that node.
pub proof fn lemma_two_aims(list: Seq<LinkView>, i: int, j: int, t: int, dir: IdxLinkDir)
    requires
        0 <= i < j < list.len(),
        aims(list[i], t, dir),
        aims(list[j], t, dir),
    ensures
        costs_to(list, t, dir).len() >= 2,
    decreases list.len(),
{
    let init = list.drop_last();
    if j == list.len() - 1 {
        assert(init[i] == list[i]);
        crate::adjacency::lemma_costs_to_holds(init, i);
        assert(costs_to(init, t, dir).len() >= 1);
    } else {
        assert(init[i] == list[i] && init[j] == list[j]);
        lemma_two_aims(init, i, j, t, dir);
    }
}

/// The list without its links to `t`.
pub open spec fn drop_to(list: Seq<LinkView>, t: int) -> Seq<LinkView>
    decreases list.len(),
{
    if list.len() == 0 {
        Seq::empty()
    } else if list.last().to == t {
        drop_to(list.drop_last(), t)
    } else {
        drop_to(list.drop_last(), t).push(list.last())
    }
}

/// A list is as long as it is without its links to `t`, and its links to
/// `t` in either direction; the costs to other nodes stay, and the links
/// left lead where links of the list lead.
pub proof fn lemma_drop_to(list: Seq<LinkView>, t: int, n: int)
    requires
        targets_within(list, n),
    ensures
        list.len() == drop_to(list, t).len() + costs_to(list, t, IdxLinkDir::Forward).len() + costs_to(
            list,
            t,
            IdxLinkDir::Backward,
        ).len(),
        forall|x: int, dir: IdxLinkDir|
            x != t ==> #[trigger] costs_to(drop_to(list, t), x, dir) == costs_to(list, x, dir),
        forall|i: int|
            0 <= i < drop_to(list, t).len() ==> 0 <= (#[trigger] drop_to(list, t)[i]).to < n
                && drop_to(list, t)[i].to != t,
    decreases list.len(),
{
    if list.len() > 0 {
        let init = list.drop_last();
        let last = list.last();
        assert forall|i: int| 0 <= i < init.len() implies 0 <= (#[trigger] init[i]).to < n by {
            assert(init[i] == list[i]);
        }
        lemma_drop_to(init, t, n);
        let kept = drop_to(list, t);
        assert forall|x: int, dir: IdxLinkDir| x != t implies #[trigger] costs_to(kept, x, dir)
            == costs_to(list, x, dir) by {
            assert(costs_to(drop_to(init, t), x, dir) == costs_to(init, x, dir));
            if last.to != t {
                assert(kept.drop_last() =~= drop_to(init, t));
                assert(kept.last() == last);
            }
        }
        if last.to == t {
            match last.dir {
                IdxLinkDir::Forward => {},
                IdxLinkDir::Backward => {},
            }
        } else {
            assert(kept.drop_last() =~= drop_to(init, t));
            assert(kept.last() == last);
            assert forall|i: int| 0 <= i < kept.len() implies 0 <= (#[trigger] kept[i]).to < n
                && kept[i].to != t by {
                if i < kept.len() - 1 {
                    assert(kept[i] == drop_to(init, t)[i]);
                }
            }
        }
    }
}

/// A plain list of links to the first `n` nodes holds at most two links
/// for each of them.
pub proof fn lemma_plain_len(list: Seq<LinkView>, n: int)
    requires
        plain_list(list),
        targets_within(list, n),
        0 <= n,
    ensures
        list.len() <= 2 * n,
    decreases n,
{
    if n == 0 {
        if list.len() > 0 {
            assert(0 <= list[0].to < 0);
        }
    } else {
        let kept = drop_to(list, n - 1);
        lemma_drop_to(list, n - 1, n);
        assert forall|x: int, dir: IdxLinkDir| #[trigger] costs_to(kept, x, dir).len() <= 1 by {
            if x != n - 1 {
                assert(costs_to(list, x, dir).len() <= 1);
            } else {
                crate::adjacency::lemma_costs_to_none(kept, x, dir);
            }
        }
        assert(costs_to(list, n - 1, IdxLinkDir::Forward).len() <= 1);
        assert(costs_to(list, n - 1, IdxLinkDir::Backward).len() <= 1);
        lemma_plain_len(kept, n - 1);
    }
}

} // verus!
