//! How much the working links of a build can cost: no more than the links
//! of the graph and the shortcuts made so far, and each contraction at most
//! doubles that.

use crate::adjacency::{has_link, in_range, lemma_paired_is_mated, paired};
use crate::arcs::{lemma_full_row, linked, spanned};
use crate::network::{IdxLinkDir, IdxNodeKey, LinkView, COST_SPAN};
use crate::paths::step;
use crate::scoring::{from_pair, spans, via_shape};
use crate::shortcut::CHContraction;
use crate::upkeep::{held, roomy};
use crate::upward::full_adj;
use vstd::arithmetic::power2::{lemma_pow2_pos, lemma_pow2_unfold, pow2};
use vstd::prelude::*;

verus! {

/// No link of the list costs more than `cap`.
pub open spec fn row_within(list: Seq<LinkView>, cap: int) -> bool {
    forall|i: int| 0 <= i < list.len() ==> (#[trigger] list[i]).cost <= cap
}

/// No link of the array costs more than `cap`.
pub open spec fn costs_within(adj: Seq<Seq<LinkView>>, cap: int) -> bool {
    forall|u: int| 0 <= u < adj.len() ==> row_within(#[trigger] adj[u], cap)
}

/// No shortcut costs more than `cap`.
pub open spec fn lengths_within(shortcuts: Seq<CHContraction>, cap: int) -> bool {
    forall|i: int| 0 <= i < shortcuts.len() ==> (#[trigger] shortcuts[i]).length <= cap
}

/// `cap` can still double once for each of the `left` nodes that are not
/// contracted yet without reaching `limit` times two to the power of `span`.
pub open spec fn doubles(cap: int, left: int, limit: int, span: nat) -> bool {
    0 <= left <= span && 0 <= cap && cap * pow2(left as nat) <= limit * pow2(span)
}

/// Working links that are links of the graph or stand for shortcuts cost no
/// more than these.
pub proof fn lemma_working_costs(
    base: Seq<Seq<LinkView>>,
    work: Seq<Seq<LinkView>>,
    shortcuts: Seq<CHContraction>,
    cap: int,
)
    requires
        work.len() == base.len(),
        in_range(work),
        paired(work),
        held(full_adj(base, shortcuts), work, -1),
        costs_within(base, cap),
        lengths_within(shortcuts, cap),
    ensures
        costs_within(work, cap),
{
    let full = full_adj(base, shortcuts);
    lemma_paired_is_mated(work);
    assert forall|u: int| 0 <= u < work.len() implies row_within(#[trigger] work[u], cap) by {
        assert forall|i: int| 0 <= i < work[u].len() implies (#[trigger] work[u][i]).cost
            <= cap by {
            let l = work[u][i];
            let c = l.cost;
            assert(0 <= l.to < work.len());
            let x = if l.dir == IdxLinkDir::Forward {
                u
            } else {
                l.to
            };
            let y = if l.dir == IdxLinkDir::Forward {
                l.to
            } else {
                u
            };
            if l.dir == IdxLinkDir::Forward {
                assert(work[u][i] == (LinkView { to: y, cost: c, dir: IdxLinkDir::Forward }));
                assert(has_link(work[x], y, c, IdxLinkDir::Forward));
            } else {
                assert(has_link(work[l.to], u, c, l.dir.flipped()));
                assert(has_link(work[x], y, c, IdxLinkDir::Forward));
            }
            assert(step(work, IdxLinkDir::Forward, x, y, c));
            assert(step(full, IdxLinkDir::Forward, x, y, c));
            lemma_full_row(base[x], shortcuts, x, y, c, IdxLinkDir::Forward);
            assert(linked(base[x], shortcuts, x, y, c, IdxLinkDir::Forward));
            if has_link(base[x], y, c, IdxLinkDir::Forward) {
                let j = choose|j: int|
                    0 <= j < base[x].len() && #[trigger] base[x][j] == (LinkView {
                        to: y,
                        cost: c,
                        dir: IdxLinkDir::Forward,
                    });
                assert(row_within(base[x], cap));
                assert(base[x][j].cost <= cap);
            } else {
                assert(spanned(shortcuts, x, y, c));
                let k = choose|k: int|
                    0 <= k < shortcuts.len() && spans(#[trigger] shortcuts[k], x, y, c);
                assert(shortcuts[k].length <= cap);
            }
        }
    }
}

/// Links that cost no more than `low` cost no more than a higher cap.
pub proof fn lemma_costs_rise(adj: Seq<Seq<LinkView>>, low: int, cap: int)
    requires
        costs_within(adj, low),
        low <= cap,
    ensures
        costs_within(adj, cap),
{
    assert forall|u: int| 0 <= u < adj.len() implies row_within(#[trigger] adj[u], cap) by {
        assert(row_within(adj[u], low));
    }
}

/// Where no link of a node costs more than `cap` and twice `cap` fits a
/// link, the costs of any two of its links fit a link together.
pub proof fn lemma_row_roomy(nb: Seq<LinkView>, cap: int)
    requires
        row_within(nb, cap),
        2 * cap < COST_SPAN,
    ensures
        roomy(nb),
{
}

/// Shortcuts over two links that cost no more than `cap` each cost no more
/// than twice `cap`.
pub proof fn lemma_lengths_grow(
    shortcuts: Seq<CHContraction>,
    found: Seq<CHContraction>,
    nb: Seq<LinkView>,
    key: IdxNodeKey,
    cap: int,
)
    requires
        0 <= cap,
        lengths_within(shortcuts, cap),
        row_within(nb, cap),
        forall|k: int| 0 <= k < found.len() ==> via_shape(nb, key, #[trigger] found[k]),
    ensures
        lengths_within(shortcuts + found, 2 * cap),
{
    let all = shortcuts + found;
    assert forall|i: int| 0 <= i < all.len() implies (#[trigger] all[i]).length <= 2 * cap by {
        if i < shortcuts.len() {
            assert(all[i] == shortcuts[i]);
        } else {
            let c = found[i - shortcuts.len()];
            assert(all[i] == c);
            assert(via_shape(nb, key, c));
            let (b, f) = choose|b: int, f: int| #[trigger] from_pair(nb, c, b, f);
            assert(nb[b].cost <= cap);
            assert(nb[f].cost <= cap);
        }
    }
}

/// A cap that can double once more stays, doubled, within `limit` times two
/// to the power of `span`, and can then double for the nodes that are left
/// after one more.
pub proof fn lemma_cap_doubles(cap: int, left: int, limit: int, span: nat)
    requires
        doubles(cap, left, limit, span),
        left >= 1,
    ensures
        2 * cap <= limit * pow2(span),
        doubles(2 * cap, left - 1, limit, span),
{
    lemma_pow2_unfold(left as nat);
    lemma_pow2_pos((left - 1) as nat);
    let p = pow2((left - 1) as nat) as int;
    assert(cap * (2 * p) == (2 * cap) * p) by (nonlinear_arith);
    assert((2 * cap) * p >= 2 * cap) by (nonlinear_arith)
        requires
            p >= 1,
            cap >= 0,
    ;
}

/// The most that a link of a graph of `n` nodes may cost for a cost that
/// doubles with each node to fit a link still.
pub open spec fn top_cost(n: nat) -> int {
    (COST_SPAN - 1) / (pow2(n) as int)
}

/// A cost that starts at `top_cost` and doubles with each node fits a link.
pub proof fn lemma_top_cost(n: nat)
    ensures
        0 <= top_cost(n),
        top_cost(n) * pow2(n) < COST_SPAN,
        doubles(top_cost(n), n as int, top_cost(n), n),
{
    lemma_pow2_pos(n);
    let d = pow2(n) as int;
    let x = COST_SPAN - 1;
    assert(0 <= x / d && (x / d) * d <= x) by (nonlinear_arith)
        requires
            x >= 0,
            d > 0,
    ;
}


} // verus!
