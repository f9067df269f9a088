//! Which links the graph with its shortcuts holds, and which of them
//! queries follow.

use crate::adjacency::has_link;
use crate::network::{IdxLinkDir, LinkView};
use crate::scoring::spans;
use crate::shortcut::CHContraction;
use crate::upward::{arcs_from, arcs_into, full_row, query_row, side, up};
use vstd::prelude::*;

verus! {

/// One of the shortcuts stands for the arc from `s` to `e` of cost `len`.
pub open spec fn spanned(shortcuts: Seq<CHContraction>, s: int, e: int, len: int) -> bool {
    exists|i: int| 0 <= i < shortcuts.len() && spans(#[trigger] shortcuts[i], s, e, len)
}

/// A joined list holds the links of its parts.
pub proof fn lemma_has_link_concat(
    a: Seq<LinkView>,
    b: Seq<LinkView>,
    t: int,
    c: int,
    dir: IdxLinkDir,
)
    ensures
        has_link(a + b, t, c, dir) <==> has_link(a, t, c, dir) || has_link(b, t, c, dir),
{
    let x = LinkView { to: t, cost: c, dir: dir };
    if has_link(a + b, t, c, dir) {
        let j = choose|j: int| 0 <= j < (a + b).len() && #[trigger] (a + b)[j] == x;
        if j < a.len() {
            assert(a[j] == x);
        } else {
            assert(b[j - a.len()] == x);
        }
    }
    if has_link(a, t, c, dir) {
        let j = choose|j: int| 0 <= j < a.len() && #[trigger] a[j] == x;
        assert((a + b)[j] == x);
    }
    if has_link(b, t, c, dir) {
        let j = choose|j: int| 0 <= j < b.len() && #[trigger] b[j] == x;
        assert((a + b)[j + a.len()] == x);
    }
}

/// A list with one more link holds that link and those from before.
pub proof fn lemma_has_link_push(list: Seq<LinkView>, x: LinkView, t: int, c: int, dir: IdxLinkDir)
    ensures
        has_link(list.push(x), t, c, dir) <==> has_link(list, t, c, dir) || x == (LinkView {
            to: t,
            cost: c,
            dir: dir,
        }),
{
    assert(list.push(x) =~= list + seq![x]);
    lemma_has_link_concat(list, seq![x], t, c, dir);
    let y = LinkView { to: t, cost: c, dir: dir };
    if has_link(seq![x], t, c, dir) {
        let j = choose|j: int| 0 <= j < seq![x].len() && #[trigger] seq![x][j] == y;
    }
    if x == y {
        assert(seq![x][0] == y);
    }
}

/// A list that lost its last link holds its other links.
pub proof fn lemma_has_link_last(list: Seq<LinkView>, t: int, c: int, dir: IdxLinkDir)
    requires
        list.len() > 0,
    ensures
        has_link(list, t, c, dir) <==> has_link(list.drop_last(), t, c, dir) || list.last() == (
        LinkView { to: t, cost: c, dir: dir }),
{
    assert(list =~= list.drop_last().push(list.last()));
    lemma_has_link_push(list.drop_last(), list.last(), t, c, dir);
}

/// The links of one direction are the links of the list in that direction.
pub proof fn lemma_side_holds(list: Seq<LinkView>, side_dir: IdxLinkDir, t: int, c: int, dir: IdxLinkDir)
    ensures
        has_link(side(list, side_dir), t, c, dir) <==> dir == side_dir && has_link(list, t, c, dir),
    decreases list.len(),
{
    if list.len() == 0 {
        if has_link(list, t, c, dir) {
            let j = choose|j: int|
                0 <= j < list.len() && #[trigger] list[j] == (LinkView { to: t, cost: c, dir: dir });
        }
        if has_link(side(list, side_dir), t, c, dir) {
            let s = side(list, side_dir);
            let j = choose|j: int|
                0 <= j < s.len() && #[trigger] s[j] == (LinkView { to: t, cost: c, dir: dir });
        }
    } else {
        lemma_side_holds(list.drop_last(), side_dir, t, c, dir);
        lemma_has_link_last(list, t, c, dir);
        if list.last().dir == side_dir {
            lemma_has_link_push(side(list.drop_last(), side_dir), list.last(), t, c, dir);
        }
    }
}

/// The links that lead upward are the links of the list to nodes of higher
/// rank.
pub proof fn lemma_up_holds(
    list: Seq<LinkView>,
    ranks: Seq<u32>,
    u: int,
    t: int,
    c: int,
    dir: IdxLinkDir,
)
    ensures
        has_link(up(list, ranks, u), t, c, dir) <==> has_link(list, t, c, dir) && ranks[t]
            > ranks[u],
    decreases list.len(),
{
    if list.len() == 0 {
        if has_link(list, t, c, dir) {
            let j = choose|j: int|
                0 <= j < list.len() && #[trigger] list[j] == (LinkView { to: t, cost: c, dir: dir });
        }
        if has_link(up(list, ranks, u), t, c, dir) {
            let s = up(list, ranks, u);
            let j = choose|j: int|
                0 <= j < s.len() && #[trigger] s[j] == (LinkView { to: t, cost: c, dir: dir });
        }
    } else {
        lemma_up_holds(list.drop_last(), ranks, u, t, c, dir);
        lemma_has_link_last(list, t, c, dir);
        if ranks[list.last().to] > ranks[u] {
            lemma_has_link_push(up(list.drop_last(), ranks, u), list.last(), t, c, dir);
        }
    }
}

/// The `Forward` links that the shortcuts give to a node are the arcs that
/// start there.
pub proof fn lemma_arcs_from_holds(
    shortcuts: Seq<CHContraction>,
    u: int,
    t: int,
    c: int,
    dir: IdxLinkDir,
)
    ensures
        has_link(arcs_from(shortcuts, u), t, c, dir) <==> dir == IdxLinkDir::Forward && spanned(
            shortcuts,
            u,
            t,
            c,
        ),
    decreases shortcuts.len(),
{
    let all = arcs_from(shortcuts, u);
    if shortcuts.len() == 0 {
        if has_link(all, t, c, dir) {
            let j = choose|j: int|
                0 <= j < all.len() && #[trigger] all[j] == (LinkView { to: t, cost: c, dir: dir });
        }
    } else {
        let init = shortcuts.drop_last();
        let last = shortcuts.last();
        lemma_arcs_from_holds(init, u, t, c, dir);
        if last.snode_idx.0 == u {
            lemma_has_link_push(
                arcs_from(init, u),
                LinkView {
                    to: last.enode_idx.0 as int,
                    cost: last.length as int,
                    dir: IdxLinkDir::Forward,
                },
                t,
                c,
                dir,
            );
        }
        if spanned(shortcuts, u, t, c) {
            let i = choose|i: int| 0 <= i < shortcuts.len() && spans(#[trigger] shortcuts[i], u, t, c);
            if i < init.len() {
                assert(spans(init[i], u, t, c));
            }
        }
        if spanned(init, u, t, c) {
            let i = choose|i: int| 0 <= i < init.len() && spans(#[trigger] init[i], u, t, c);
            assert(spans(shortcuts[i], u, t, c));
        }
        if spans(last, u, t, c) {
            assert(spans(shortcuts[shortcuts.len() - 1], u, t, c));
        }
    }
}

/// The `Backward` links that the shortcuts give to a node are the arcs that
/// end there.
pub proof fn lemma_arcs_into_holds(
    shortcuts: Seq<CHContraction>,
    u: int,
    t: int,
    c: int,
    dir: IdxLinkDir,
)
    ensures
        has_link(arcs_into(shortcuts, u), t, c, dir) <==> dir == IdxLinkDir::Backward && spanned(
            shortcuts,
            t,
            u,
            c,
        ),
    decreases shortcuts.len(),
{
    let all = arcs_into(shortcuts, u);
    if shortcuts.len() == 0 {
        if has_link(all, t, c, dir) {
            let j = choose|j: int|
                0 <= j < all.len() && #[trigger] all[j] == (LinkView { to: t, cost: c, dir: dir });
        }
    } else {
        let init = shortcuts.drop_last();
        let last = shortcuts.last();
        lemma_arcs_into_holds(init, u, t, c, dir);
        if last.enode_idx.0 == u {
            lemma_has_link_push(
                arcs_into(init, u),
                LinkView {
                    to: last.snode_idx.0 as int,
                    cost: last.length as int,
                    dir: IdxLinkDir::Backward,
                },
                t,
                c,
                dir,
            );
        }
        if spanned(shortcuts, t, u, c) {
            let i = choose|i: int| 0 <= i < shortcuts.len() && spans(#[trigger] shortcuts[i], t, u, c);
            if i < init.len() {
                assert(spans(init[i], t, u, c));
            }
        }
        if spanned(init, t, u, c) {
            let i = choose|i: int| 0 <= i < init.len() && spans(#[trigger] init[i], t, u, c);
            assert(spans(shortcuts[i], t, u, c));
        }
        if spans(last, t, u, c) {
            assert(spans(shortcuts[shortcuts.len() - 1], t, u, c));
        }
    }
}

/// Node `u` of the graph with its shortcuts has a link to `t` of cost `c` in
/// direction `dir`: a link of the graph, or the end of a shortcut.
pub open spec fn linked(
    row: Seq<LinkView>,
    shortcuts: Seq<CHContraction>,
    u: int,
    t: int,
    c: int,
    dir: IdxLinkDir,
) -> bool {
    ||| has_link(row, t, c, dir)
    ||| dir == IdxLinkDir::Forward && spanned(shortcuts, u, t, c)
    ||| dir == IdxLinkDir::Backward && spanned(shortcuts, t, u, c)
}

/// The links of a node in the graph with its shortcuts.
pub proof fn lemma_full_row(
    row: Seq<LinkView>,
    shortcuts: Seq<CHContraction>,
    u: int,
    t: int,
    c: int,
    dir: IdxLinkDir,
)
    ensures
        has_link(full_row(row, shortcuts, u), t, c, dir) <==> linked(row, shortcuts, u, t, c, dir),
{
    let f = side(row, IdxLinkDir::Forward);
    let b = side(row, IdxLinkDir::Backward);
    let outs = arcs_from(shortcuts, u);
    let ins = arcs_into(shortcuts, u);
    lemma_has_link_concat(f + outs, b + ins, t, c, dir);
    lemma_has_link_concat(f, outs, t, c, dir);
    lemma_has_link_concat(b, ins, t, c, dir);
    lemma_side_holds(row, IdxLinkDir::Forward, t, c, dir);
    lemma_side_holds(row, IdxLinkDir::Backward, t, c, dir);
    lemma_arcs_from_holds(shortcuts, u, t, c, dir);
    lemma_arcs_into_holds(shortcuts, u, t, c, dir);
}

/// The links of a node that queries follow are its links in the graph with
/// its shortcuts that lead to a node of higher rank.
pub proof fn lemma_query_row(
    row: Seq<LinkView>,
    shortcuts: Seq<CHContraction>,
    ranks: Seq<u32>,
    u: int,
    t: int,
    c: int,
    dir: IdxLinkDir,
)
    ensures
        has_link(query_row(row, shortcuts, ranks, u), t, c, dir) <==> linked(
            row,
            shortcuts,
            u,
            t,
            c,
            dir,
        ) && ranks[t] > ranks[u],
{
    let f = side(row, IdxLinkDir::Forward) + arcs_from(shortcuts, u);
    let b = side(row, IdxLinkDir::Backward) + arcs_into(shortcuts, u);
    lemma_has_link_concat(up(f, ranks, u), up(b, ranks, u), t, c, dir);
    lemma_up_holds(f, ranks, u, t, c, dir);
    lemma_up_holds(b, ranks, u, t, c, dir);
    lemma_has_link_concat(
        side(row, IdxLinkDir::Forward),
        arcs_from(shortcuts, u),
        t,
        c,
        dir,
    );
    lemma_has_link_concat(
        side(row, IdxLinkDir::Backward),
        arcs_into(shortcuts, u),
        t,
        c,
        dir,
    );
    lemma_side_holds(row, IdxLinkDir::Forward, t, c, dir);
    lemma_side_holds(row, IdxLinkDir::Backward, t, c, dir);
    lemma_arcs_from_holds(shortcuts, u, t, c, dir);
    lemma_arcs_into_holds(shortcuts, u, t, c, dir);
}

} // verus!
