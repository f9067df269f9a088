//! A build that stays on course ends with a faithful hierarchy.

use crate::adjacency::{has_link, in_range, paired, targets_within};
use crate::arcs::{lemma_full_row, spanned};
use crate::ch::{shortcut_within, CH};
use crate::faithful::{
    above, all_through, bypassed, faithful, framed, real_shortcuts, through, trim, valley,
    valleys_bypassed,
};
use crate::hierarchy::{isolated, lemma_target_has_links, ranked, shortcut_ok, shortcuts_ok};
use crate::network::{IdxLinkDir, IdxNodeKey, LinkView, COST_SPAN};
use crate::paths::{leads, lemma_way_carries, step};
use crate::retrace::{arc, decomposed, split};
use crate::scoring::{from_pair, lean, necessary, spans, via_shape};
use crate::shortcut::CHContraction;
use crate::upkeep::{
    held, lemma_new_shortcuts_real, lemma_new_shortcuts_split, lemma_valley_at_key,
    lemma_valley_before, live, undercut, within,
};
use crate::upward::full_adj;
use vstd::prelude::*;
use vstd::seq_lib::group_to_multiset_ensures;

verus! {

/// Both ends of every shortcut have links in the graph.
pub open spec fn ends_linked(base: Seq<Seq<LinkView>>, shortcuts: Seq<CHContraction>) -> bool {
    forall|i: int|
        0 <= i < shortcuts.len() ==> base[(#[trigger] shortcuts[i]).snode_idx.0 as int].len() > 0
            && base[shortcuts[i].enode_idx.0 as int].len() > 0
}

/// Every node with working links has links in the graph.
pub open spec fn rooted_in(base: Seq<Seq<LinkView>>, work: Seq<Seq<LinkView>>) -> bool {
    forall|x: int| 0 <= x < work.len() && (#[trigger] work[x]).len() > 0 ==> base[x].len() > 0
}

/// The build is grounded: the working arcs are arcs of the graph with its
/// shortcuts, and the shortcuts stand for ways of the graph, each through
/// the node it names, between nodes that have links, and fall into two
/// arcs each.
pub open spec fn grounded(
    base: Seq<Seq<LinkView>>,
    work: Seq<Seq<LinkView>>,
    shortcuts: Seq<CHContraction>,
) -> bool {
    &&& held(full_adj(base, shortcuts), work, -1)
    &&& real_shortcuts(base, shortcuts)
    &&& all_through(base, shortcuts)
    &&& decomposed(base, shortcuts)
    &&& ends_linked(base, shortcuts)
    &&& rooted_in(base, work)
}

/// The build is on course: it is grounded; between nodes that are not
/// contracted yet the working arcs cost no more than any arc of the graph
/// with its shortcuts; every valley can be passed by; and no shortcut costs
/// more than a link of the graph between the same nodes.
pub open spec fn on_course(
    base: Seq<Seq<LinkView>>,
    work: Seq<Seq<LinkView>>,
    shortcuts: Seq<CHContraction>,
    ranks: Seq<u32>,
) -> bool {
    &&& grounded(base, work, shortcuts)
    &&& undercut(full_adj(base, shortcuts), work, ranks, -1)
    &&& valleys_bypassed(full_adj(base, shortcuts), ranks)
    &&& trim(base, shortcuts)
}

/// A build sets out on course: with the links of the graph to work on, no
/// shortcut and no node contracted.
pub proof fn lemma_course_begins(base: Seq<Seq<LinkView>>, ranks: Seq<u32>)
    requires
        forall|u: int| 0 <= u < ranks.len() ==> #[trigger] ranks[u] == u32::MAX,
    ensures
        on_course(base, base, Seq::<CHContraction>::empty(), ranks),
{
    let fw = IdxLinkDir::Forward;
    let none = Seq::<CHContraction>::empty();
    let full = full_adj(base, none);
    assert forall|x: int, y: int, c: int|
        x != -1 && y != -1 && #[trigger] step(base, fw, x, y, c) implies step(full, fw, x, y, c) by {
        lemma_full_row(base[x], none, x, y, c, fw);
    }
    assert forall|x: int, y: int, c: int|
        x != -1 && y != -1 && live(ranks, x) && live(ranks, y) && #[trigger] step(
            full,
            fw,
            x,
            y,
            c,
        ) implies within(base, x, y, c) by {
        lemma_full_row(base[x], none, x, y, c, fw);
        assert(!spanned(none, x, y, c));
        assert(c <= c && step(base, fw, x, y, c));
    }
    assert forall|u: int, v: int, w: int, c1: int, c2: int|
        #[trigger] valley(full, ranks, u, v, w, c1, c2) && c1 + c2 < COST_SPAN implies bypassed(
        full,
        ranks,
        v,
        u,
        w,
        c1 + c2,
    ) by {
        assert(ranks[v] == u32::MAX);
        assert(ranks[u] == u32::MAX);
    }
}

/// The ends of a shortcut through a node have working links.
pub proof fn lemma_found_ends(
    work: Seq<Seq<LinkView>>,
    key: IdxNodeKey,
    c: CHContraction,
)
    requires
        in_range(work),
        paired(work),
        key.0 < work.len(),
        via_shape(work[key.0 as int], key, c),
    ensures
        c.snode_idx.0 < work.len(),
        c.enode_idx.0 < work.len(),
        work[c.snode_idx.0 as int].len() > 0,
        work[c.enode_idx.0 as int].len() > 0,
{
    let k0 = key.0 as int;
    let nb = work[k0];
    let (b, f) = choose|b: int, f: int| #[trigger] from_pair(nb, c, b, f);
    assert(targets_within(nb, work.len() as int));
    lemma_target_has_links(work, k0, b);
    lemma_target_has_links(work, k0, f);
}

/// The contraction of a node keeps the build grounded.
pub proof fn lemma_contraction_grounded(
    base: Seq<Seq<LinkView>>,
    work: Seq<Seq<LinkView>>,
    shortcuts: Seq<CHContraction>,
    found: Seq<CHContraction>,
    ranks: Seq<u32>,
    key: IdxNodeKey,
    next: Seq<Seq<LinkView>>,
)
    requires
        grounded(base, work, shortcuts),
        framed(base, shortcuts, ranks),
        in_range(work),
        paired(work),
        work.len() == base.len(),
        key.0 < work.len(),
        forall|k: int| 0 <= k < found.len() ==> via_shape(work[key.0 as int], key, #[trigger] found[k]),
        held(full_adj(base, shortcuts + found), next, -1),
        rooted_in(base, next),
    ensures
        grounded(base, next, shortcuts + found),
{
    let all = shortcuts + found;
    lemma_new_shortcuts_real(base, work, shortcuts, found, ranks, key);
    lemma_new_shortcuts_split(base, work, shortcuts, found, key);
    assert forall|i: int| 0 <= i < all.len() implies base[(#[trigger] all[i]).snode_idx.0 as int].len()
        > 0 && base[all[i].enode_idx.0 as int].len() > 0 by {
        if i < shortcuts.len() {
            assert(all[i] == shortcuts[i]);
        } else {
            assert(all[i] == found[i - shortcuts.len()]);
            lemma_found_ends(work, key, found[i - shortcuts.len()]);
        }
    }
}

/// The contraction of a node keeps the build on course, where each way
/// through it that a shortcut could span has its shortcut or a way round.
pub proof fn lemma_contraction_on_course(
    base: Seq<Seq<LinkView>>,
    work: Seq<Seq<LinkView>>,
    shortcuts: Seq<CHContraction>,
    found: Seq<CHContraction>,
    ranks: Seq<u32>,
    key: IdxNodeKey,
    rank: u32,
    next: Seq<Seq<LinkView>>,
)
    requires
        on_course(base, work, shortcuts, ranks),
        framed(base, shortcuts, ranks),
        in_range(work),
        paired(work),
        isolated(work, ranks),
        work.len() == base.len(),
        live(ranks, key.0 as int),
        rank < u32::MAX,
        forall|x: int| 0 <= x < ranks.len() && #[trigger] ranks[x] != u32::MAX ==> ranks[x] < rank,
        necessary(
            work.update(key.0 as int, Seq::<LinkView>::empty()),
            key,
            work[key.0 as int],
            found,
        ),
        grounded(base, next, shortcuts + found),
        undercut(full_adj(base, shortcuts + found), next, ranks.update(key.0 as int, rank), -1),
        lean(work.update(key.0 as int, Seq::<LinkView>::empty()), found),
    ensures
        on_course(base, next, shortcuts + found, ranks.update(key.0 as int, rank)),
{
    let k0 = key.0 as int;
    let all = shortcuts + found;
    lemma_new_shortcuts_trim(base, work, shortcuts, found, ranks, key);
    let full1 = full_adj(base, all);
    let ranks1 = ranks.update(k0, rank);
    assert forall|k: int|
        0 <= k < found.len() implies live(ranks, (#[trigger] found[k]).snode_idx.0 as int) && live(
        ranks,
        found[k].enode_idx.0 as int,
    ) by {
        assert(via_shape(work[k0], key, found[k]));
        lemma_found_ends(work, key, found[k]);
    }
    assert forall|u: int, v: int, w: int, c1: int, c2: int|
        #[trigger] valley(full1, ranks1, u, v, w, c1, c2) && c1 + c2 < COST_SPAN implies bypassed(
        full1,
        ranks1,
        v,
        u,
        w,
        c1 + c2,
    ) by {
        if v == k0 {
            lemma_valley_at_key(base, work, shortcuts, found, ranks, key, rank, u, w, c1, c2);
        } else {
            lemma_valley_before(base, shortcuts, found, ranks, k0, rank, u, v, w, c1, c2);
        }
    }
}

/// A build that is on course when every node that has links in the graph
/// is contracted has made a faithful hierarchy.
pub proof fn lemma_course_ends(
    base: Seq<Seq<LinkView>>,
    work: Seq<Seq<LinkView>>,
    shortcuts: Seq<CHContraction>,
    ranks: Seq<u32>,
    count: int,
)
    requires
        on_course(base, work, shortcuts, ranks),
        ranked(ranks, count),
        ranks.len() == base.len(),
        forall|i: int|
            0 <= i < shortcuts.len() ==> shortcut_within(#[trigger] shortcuts[i], base.len() as int),
        forall|u: int| 0 <= u < base.len() && (#[trigger] base[u]).len() > 0 ==> ranks[u] != u32::MAX,
    ensures
        faithful(base, shortcuts, ranks),
{
    assert forall|i: int| 0 <= i < shortcuts.len() implies ranks[(
    #[trigger] shortcuts[i]).snode_idx.0 as int] != u32::MAX && ranks[shortcuts[i].enode_idx.0 as int]
        != u32::MAX by {
        assert(shortcut_within(shortcuts[i], base.len() as int));
        assert(base[shortcuts[i].snode_idx.0 as int].len() > 0);
        assert(base[shortcuts[i].enode_idx.0 as int].len() > 0);
    }
}

/// The same shortcuts in another order stand for the same arcs.
pub proof fn lemma_spanned_shuffled(
    a: Seq<CHContraction>,
    b: Seq<CHContraction>,
    s: int,
    e: int,
    len: int,
)
    requires
        a.to_multiset() == b.to_multiset(),
        spanned(a, s, e, len),
    ensures
        spanned(b, s, e, len),
{
    broadcast use group_to_multiset_ensures;

    let i = choose|i: int| 0 <= i < a.len() && spans(#[trigger] a[i], s, e, len);
    assert(a.to_multiset().contains(a[i]));
    assert(b.to_multiset().contains(a[i]));
    assert(b.contains(a[i]));
    let j = choose|j: int| 0 <= j < b.len() && b[j] == a[i];
    assert(spans(b[j], s, e, len));
}

/// The graph with the same shortcuts in another order has the same arcs.
pub proof fn lemma_full_shuffled(
    base: Seq<Seq<LinkView>>,
    a: Seq<CHContraction>,
    b: Seq<CHContraction>,
    x: int,
    y: int,
    c: int,
)
    requires
        a.to_multiset() == b.to_multiset(),
        step(full_adj(base, a), IdxLinkDir::Forward, x, y, c),
    ensures
        step(full_adj(base, b), IdxLinkDir::Forward, x, y, c),
{
    let fw = IdxLinkDir::Forward;
    lemma_full_row(base[x], a, x, y, c, fw);
    lemma_full_row(base[x], b, x, y, c, fw);
    if spanned(a, x, y, c) {
        lemma_spanned_shuffled(a, b, x, y, c);
    }
}

/// Shortcuts that stand for ways of the graph do so in any order.
pub proof fn lemma_real_shuffled(
    base: Seq<Seq<LinkView>>,
    a: Seq<CHContraction>,
    b: Seq<CHContraction>,
)
    requires
        real_shortcuts(base, a),
        all_through(base, a),
        a.to_multiset() == b.to_multiset(),
    ensures
        real_shortcuts(base, b),
        all_through(base, b),
{
    broadcast use group_to_multiset_ensures;

    assert forall|i: int| 0 <= i < b.len() implies crate::witness::reaches(
        base,
        (#[trigger] b[i]).snode_idx.0 as int,
        b[i].enode_idx.0 as int,
        b[i].length as int,
    ) && through(base, b[i]) by {
        assert(b.to_multiset().contains(b[i]));
        assert(a.to_multiset().contains(b[i]));
        assert(a.contains(b[i]));
        let j = choose|j: int| 0 <= j < a.len() && a[j] == b[i];
        assert(through(base, a[j]));
    }
}

/// Shortcuts that fall into two arcs each do so in any order.
pub proof fn lemma_decomposed_shuffled(
    base: Seq<Seq<LinkView>>,
    a: Seq<CHContraction>,
    b: Seq<CHContraction>,
)
    requires
        decomposed(base, a),
        a.to_multiset() == b.to_multiset(),
    ensures
        decomposed(base, b),
{
    broadcast use group_to_multiset_ensures;

    let fw = IdxLinkDir::Forward;
    let fa = full_adj(base, a);
    let fb = full_adj(base, b);
    assert forall|i: int| 0 <= i < b.len() implies split(fb, #[trigger] b[i]) by {
        assert(b.to_multiset().contains(b[i]));
        assert(a.to_multiset().contains(b[i]));
        assert(a.contains(b[i]));
        let j = choose|j: int| 0 <= j < a.len() && a[j] == b[i];
        assert(split(fa, a[j]));
        let c = b[i];
        let s = c.snode_idx.0 as int;
        let m = c.mnode_idx.0 as int;
        let e = c.enode_idx.0 as int;
        let (c1, c2) = choose|c1: int, c2: int|
            #[trigger] step(fa, fw, s, m, c1) && #[trigger] step(fa, fw, m, e, c2) && c1 + c2
                == c.length;
        lemma_full_shuffled(base, a, b, s, m, c1);
        lemma_full_shuffled(base, a, b, m, e, c2);
        assert(step(fb, fw, s, m, c1) && step(fb, fw, m, e, c2) && c1 + c2 == c.length);
    }
}

/// A hierarchy stays faithful where its shortcuts are put in another order.
pub proof fn lemma_faithful_shuffled(
    base: Seq<Seq<LinkView>>,
    a: Seq<CHContraction>,
    b: Seq<CHContraction>,
    ranks: Seq<u32>,
)
    requires
        faithful(base, a, ranks),
        a.to_multiset() == b.to_multiset(),
    ensures
        faithful(base, b, ranks),
{
    broadcast use group_to_multiset_ensures;

    let fw = IdxLinkDir::Forward;
    let fa = full_adj(base, a);
    let fb = full_adj(base, b);
    assert forall|i: int| 0 <= i < b.len() implies crate::witness::reaches(
        base,
        (#[trigger] b[i]).snode_idx.0 as int,
        b[i].enode_idx.0 as int,
        b[i].length as int,
    ) && ranks[b[i].snode_idx.0 as int] != u32::MAX && ranks[b[i].enode_idx.0 as int]
        != u32::MAX by {
        assert(b.to_multiset().contains(b[i]));
        assert(a.to_multiset().contains(b[i]));
        assert(a.contains(b[i]));
        let j = choose|j: int| 0 <= j < a.len() && a[j] == b[i];
        assert(a[j] == b[i]);
    }
    assert forall|i: int, q: int|
        0 <= i < b.len() && #[trigger] has_link(
            base[b[i].snode_idx.0 as int],
            b[i].enode_idx.0 as int,
            q,
            IdxLinkDir::Forward,
        ) implies b[i].length <= q by {
        assert(b.to_multiset().contains(b[i]));
        assert(a.to_multiset().contains(b[i]));
        assert(a.contains(b[i]));
        let j = choose|j: int| 0 <= j < a.len() && a[j] == b[i];
        assert(has_link(base[a[j].snode_idx.0 as int], a[j].enode_idx.0 as int, q, IdxLinkDir::Forward));
    }
    assert forall|u: int, v: int, w: int, c1: int, c2: int|
        #[trigger] valley(fb, ranks, u, v, w, c1, c2) && c1 + c2 < COST_SPAN implies bypassed(
        fb,
        ranks,
        v,
        u,
        w,
        c1 + c2,
    ) by {
        lemma_full_shuffled(base, b, a, u, v, c1);
        lemma_full_shuffled(base, b, a, v, w, c2);
        assert(valley(fa, ranks, u, v, w, c1, c2));
        assert(bypassed(fa, ranks, v, u, w, c1 + c2));
        let (nodes, c) = choose|nodes: Seq<int>, c: int|
            c <= c1 + c2 && #[trigger] leads(fa, fw, nodes, u, w, c) && above(
                ranks,
                nodes,
                ranks[v] as int,
            );
        assert forall|i: int, d: int|
            0 <= i < nodes.len() - 1 && #[trigger] step(fa, fw, nodes[i], nodes[i + 1], d) implies step(
            fb,
            fw,
            nodes[i],
            nodes[i + 1],
            d,
        ) by {
            lemma_full_shuffled(base, a, b, nodes[i], nodes[i + 1], d);
        }
        lemma_way_carries(fa, fb, fw, nodes, c);
        assert(c <= c1 + c2 && leads(fb, fw, nodes, u, w, c) && above(ranks, nodes, ranks[v] as int));
    }
}

/// A well-formed hierarchy whose shortcuts are in order has what the
/// theorems on ways take for granted.
pub proof fn lemma_wf_framed(ch: &CH)
    requires
        ch.wf(),
        shortcuts_ok(ch.ranks(), ch.shortcuts()),
    ensures
        framed(ch.graph().adj(), ch.shortcuts(), ch.ranks()),
{
    let base = ch.graph().adj();
    crate::paths::lemma_adj_of_costs(ch.graph().idx_links@);
    crate::adjacency::lemma_paired_is_mated(base);
    assert forall|i: int| 0 <= i < ch.shortcuts().len() implies (#[trigger] ch.shortcuts()[i]).length
        < crate::network::COST_SPAN by {
        assert(shortcut_ok(ch.ranks(), ch.shortcuts()[i]));
    }
}

/// The shortcuts through a node cost no more than a link of the graph
/// between the same nodes, as the shortcuts before them: a working arc
/// undercuts the link, and no shortcut is made beside a cheaper arc.
pub proof fn lemma_new_shortcuts_trim(
    base: Seq<Seq<LinkView>>,
    work: Seq<Seq<LinkView>>,
    shortcuts: Seq<CHContraction>,
    found: Seq<CHContraction>,
    ranks: Seq<u32>,
    key: IdxNodeKey,
)
    requires
        trim(base, shortcuts),
        undercut(full_adj(base, shortcuts), work, ranks, -1),
        in_range(work),
        paired(work),
        isolated(work, ranks),
        work.len() == base.len(),
        ranks.len() == base.len(),
        key.0 < work.len(),
        forall|k: int| 0 <= k < found.len() ==> via_shape(work[key.0 as int], key, #[trigger] found[k]),
        lean(work.update(key.0 as int, Seq::<LinkView>::empty()), found),
    ensures
        trim(base, shortcuts + found),
{
    let fw = IdxLinkDir::Forward;
    let bw = IdxLinkDir::Backward;
    let all = shortcuts + found;
    let k0 = key.0 as int;
    let out = work.update(k0, Seq::<LinkView>::empty());
    let full0 = full_adj(base, shortcuts);
    assert forall|i: int, q: int|
        0 <= i < all.len() && #[trigger] has_link(
            base[all[i].snode_idx.0 as int],
            all[i].enode_idx.0 as int,
            q,
            fw,
        ) implies all[i].length <= q by {
        if i < shortcuts.len() {
            assert(all[i] == shortcuts[i]);
            assert(has_link(
                base[shortcuts[i].snode_idx.0 as int],
                shortcuts[i].enode_idx.0 as int,
                q,
                fw,
            ));
        } else {
            let k = i - shortcuts.len();
            let c = found[k];
            assert(all[i] == c);
            let s = c.snode_idx.0 as int;
            let e = c.enode_idx.0 as int;
            assert(via_shape(work[k0], key, c));
            lemma_found_ends(work, key, c);
            assert(live(ranks, s) && live(ranks, e));
            lemma_full_row(base[s], shortcuts, s, e, q, fw);
            assert(step(full0, fw, s, e, q));
            assert(within(work, s, e, q));
            let d = choose|d: int| d <= q && #[trigger] step(work, fw, s, e, d);
            crate::upkeep::lemma_step_costs(work, fw, s, e, d);
            assert(crate::adjacency::costs_to(work[s], e, fw) == crate::adjacency::costs_to(
                work[e],
                s,
                bw,
            ));
            crate::upkeep::lemma_step_costs(work, bw, e, s, d);
            assert(out[e] == work[e]);
            assert(has_link(out[found[k].enode_idx.0 as int], found[k].snode_idx.0 as int, d, bw));
        }
    }
}

} // verus!
