//! How adding, repricing and removing a link changes what a list holds for
//! each neighbour.

use crate::adjacency::{
    costs_to, grouped, lemma_costs_to_concat, lemma_costs_to_none, lemma_costs_to_one,
};
use crate::network::{IdxLinkDir, LinkView};
use vstd::prelude::*;

verus! {

/// The link leads to `t` in direction `dir`.
pub open spec fn aims(link: LinkView, t: int, dir: IdxLinkDir) -> bool {
    link.to == t && link.dir == dir
}

/// None of the first `j` links of the list leads to `t` in direction `dir`.
pub open spec fn none_before(list: Seq<LinkView>, j: int, t: int, dir: IdxLinkDir) -> bool {
    forall|i: int| 0 <= i < j && i < list.len() ==> !aims(#[trigger] list[i], t, dir)
}

/// Position `p` parts the list by direction code `code`: the links before it
/// have a code up to `code`, the links from it on a larger one.
pub open spec fn parts_at(list: Seq<LinkView>, code: u32, p: int) -> bool {
    &&& 0 <= p <= list.len()
    &&& forall|i: int| 0 <= i < p ==> (#[trigger] list[i]).dir.code() <= code
    &&& forall|i: int| p <= i < list.len() ==> (#[trigger] list[i]).dir.code() > code
}

/// The link with another cost.
pub open spec fn repriced(link: LinkView, cost: int) -> LinkView {
    LinkView { to: link.to, cost: cost, dir: link.dir }
}

/// A list is its first `j` links, link `j`, and the rest.
pub proof fn lemma_split_at(list: Seq<LinkView>, j: int)
    requires
        0 <= j < list.len(),
    ensures
        list == list.take(j) + seq![list[j]] + list.skip(j + 1),
{
    assert(list =~= list.take(j) + seq![list[j]] + list.skip(j + 1));
}

/// The costs a list holds for a neighbour, by the three parts of the list.
pub proof fn lemma_costs_split(list: Seq<LinkView>, j: int, t: int, dir: IdxLinkDir)
    requires
        0 <= j < list.len(),
    ensures
        costs_to(list, t, dir) == costs_to(list.take(j), t, dir) + costs_to(seq![list[j]], t, dir)
            + costs_to(list.skip(j + 1), t, dir),
{
    lemma_split_at(list, j);
    lemma_costs_to_concat(list.take(j) + seq![list[j]], list.skip(j + 1), t, dir);
    lemma_costs_to_concat(list.take(j), seq![list[j]], t, dir);
}

/// A link put into a list adds its cost for the neighbour it leads to, and
/// nothing for any other; where the list held no such link, the cost stands
/// alone.
pub proof fn lemma_insert_costs(list: Seq<LinkView>, p: int, x: LinkView, t: int, dir: IdxLinkDir)
    requires
        0 <= p <= list.len(),
    ensures
        !aims(x, t, dir) ==> costs_to(list.insert(p, x), t, dir) == costs_to(list, t, dir),
        aims(x, t, dir) && none_before(list, list.len() as int, t, dir) ==> costs_to(
            list.insert(p, x),
            t,
            dir,
        ) == seq![x.cost] && costs_to(list, t, dir) == Seq::<int>::empty(),
{
    let a = list.take(p);
    let b = list.skip(p);
    assert(list =~= a + b);
    assert(list.insert(p, x) =~= a + seq![x] + b);
    lemma_costs_to_concat(a, b, t, dir);
    lemma_costs_to_concat(a + seq![x], b, t, dir);
    lemma_costs_to_concat(a, seq![x], t, dir);
    lemma_costs_to_one(x, t, dir);
    if !aims(x, t, dir) {
        assert(costs_to(a, t, dir) + Seq::<int>::empty() =~= costs_to(a, t, dir));
    } else if none_before(list, list.len() as int, t, dir) {
        lemma_costs_to_none(list, t, dir);
        assert forall|i: int| 0 <= i < a.len() implies !((#[trigger] a[i]).to == t && a[i].dir
            == dir) by {
            assert(a[i] == list[i]);
            assert(!aims(list[i], t, dir));
        }
        assert forall|i: int| 0 <= i < b.len() implies !((#[trigger] b[i]).to == t && b[i].dir
            == dir) by {
            assert(b[i] == list[i + p]);
            assert(!aims(list[i + p], t, dir));
        }
        lemma_costs_to_none(a, t, dir);
        lemma_costs_to_none(b, t, dir);
        assert(Seq::<int>::empty() + seq![x.cost] + Seq::<int>::empty() =~= seq![x.cost]);
    }
}

/// The first `j` links hold no cost for a neighbour that none of them leads
/// to.
pub proof fn lemma_take_none(list: Seq<LinkView>, j: int, t: int, dir: IdxLinkDir)
    requires
        0 <= j <= list.len(),
        none_before(list, j, t, dir),
    ensures
        costs_to(list.take(j), t, dir) == Seq::<int>::empty(),
{
    let a = list.take(j);
    assert forall|i: int| 0 <= i < a.len() implies !((#[trigger] a[i]).to == t && a[i].dir
        == dir) by {
        assert(a[i] == list[i]);
        assert(!aims(list[i], t, dir));
    }
    lemma_costs_to_none(a, t, dir);
}

/// Repricing the first link to a neighbour replaces the first cost held for
/// that neighbour and leaves the costs for the others.
pub proof fn lemma_reprice_costs(list: Seq<LinkView>, j: int, cost: int, t: int, dir: IdxLinkDir)
    requires
        0 <= j < list.len(),
        none_before(list, j, list[j].to, list[j].dir),
    ensures
        !aims(list[j], t, dir) ==> costs_to(list.update(j, repriced(list[j], cost)), t, dir)
            == costs_to(list, t, dir),
        aims(list[j], t, dir) ==> costs_to(list, t, dir).len() > 0 && costs_to(list, t, dir)[0]
            == list[j].cost && costs_to(list.update(j, repriced(list[j], cost)), t, dir)
            == costs_to(list, t, dir).update(0, cost),
{
    let x = list[j];
    let y = repriced(x, cost);
    let after = list.update(j, y);
    lemma_costs_split(list, j, t, dir);
    lemma_costs_split(after, j, t, dir);
    assert(after.take(j) =~= list.take(j));
    assert(after.skip(j + 1) =~= list.skip(j + 1));
    lemma_costs_to_one(x, t, dir);
    lemma_costs_to_one(y, t, dir);
    if aims(x, t, dir) {
        lemma_take_none(list, j, t, dir);
        let rest = costs_to(list.skip(j + 1), t, dir);
        assert(Seq::<int>::empty() + seq![x.cost] + rest =~= (seq![x.cost] + rest));
        assert(Seq::<int>::empty() + seq![cost] + rest =~= (seq![x.cost] + rest).update(0, cost));
    }
}

/// Removing the first link to a neighbour removes the first cost held for
/// that neighbour and leaves the costs for the others.
pub proof fn lemma_remove_costs(list: Seq<LinkView>, j: int, t: int, dir: IdxLinkDir)
    requires
        0 <= j < list.len(),
        none_before(list, j, list[j].to, list[j].dir),
    ensures
        !aims(list[j], t, dir) ==> costs_to(list.remove(j), t, dir) == costs_to(list, t, dir),
        aims(list[j], t, dir) ==> costs_to(list, t, dir).len() > 0 && costs_to(list, t, dir)[0]
            == list[j].cost && costs_to(list.remove(j), t, dir) == costs_to(list, t, dir).skip(1),
{
    let x = list[j];
    let after = list.remove(j);
    lemma_costs_split(list, j, t, dir);
    assert(after =~= list.take(j) + list.skip(j + 1));
    lemma_costs_to_concat(list.take(j), list.skip(j + 1), t, dir);
    lemma_costs_to_one(x, t, dir);
    let head = costs_to(list.take(j), t, dir);
    let rest = costs_to(list.skip(j + 1), t, dir);
    if aims(x, t, dir) {
        lemma_take_none(list, j, t, dir);
        assert(Seq::<int>::empty() + seq![x.cost] + rest =~= (seq![x.cost] + rest));
        assert((seq![x.cost] + rest).skip(1) =~= rest);
        assert(Seq::<int>::empty() + rest =~= rest);
    } else {
        assert(head + Seq::<int>::empty() + rest =~= head + rest);
    }
}

/// A list that holds a cost for a neighbour has a first link to it.
pub proof fn lemma_costs_mean_link(list: Seq<LinkView>, t: int, dir: IdxLinkDir)
    requires
        costs_to(list, t, dir).len() > 0,
    ensures
        exists|j: int| 0 <= j < list.len() && aims(#[trigger] list[j], t, dir),
    decreases list.len(),
{
    if list.len() > 0 {
        if aims(list.last(), t, dir) {
            assert(aims(list[list.len() - 1], t, dir));
        } else {
            lemma_costs_mean_link(list.drop_last(), t, dir);
            let j = choose|j: int|
                0 <= j < list.drop_last().len() && aims(#[trigger] list.drop_last()[j], t, dir);
            assert(aims(list[j], t, dir));
        }
    }
}

/// A link put where the list parts by its direction keeps the `Forward`
/// links first.
pub proof fn lemma_insert_grouped(list: Seq<LinkView>, p: int, x: LinkView)
    requires
        grouped(list),
        parts_at(list, x.dir.code(), p),
    ensures
        grouped(list.insert(p, x)),
{
    let after = list.insert(p, x);
    assert forall|i: int, j: int|
        0 <= i < j < after.len() && (#[trigger] after[i]).dir
            == IdxLinkDir::Backward implies (#[trigger] after[j]).dir == IdxLinkDir::Backward by {
        let a = if i < p {
            list[i]
        } else if i == p {
            x
        } else {
            list[i - 1]
        };
        assert(after[i] == a);
        if j == p {
        } else if j < p {
            assert(after[j] == list[j]);
            assert(after[i] == list[i]);
        } else {
            assert(after[j] == list[j - 1]);
            if i < p {
                assert(list[i].dir.code() <= x.dir.code());
                assert(list[j - 1].dir.code() > x.dir.code());
            } else if i == p {
                assert(list[j - 1].dir.code() > x.dir.code());
            }
        }
    }
}

/// Repricing a link keeps the `Forward` links first.
pub proof fn lemma_reprice_grouped(list: Seq<LinkView>, j: int, cost: int)
    requires
        grouped(list),
        0 <= j < list.len(),
    ensures
        grouped(list.update(j, repriced(list[j], cost))),
{
    let after = list.update(j, repriced(list[j], cost));
    assert forall|a: int, b: int|
        0 <= a < b < after.len() && (#[trigger] after[a]).dir
            == IdxLinkDir::Backward implies (#[trigger] after[b]).dir == IdxLinkDir::Backward by {
        assert(after[a].dir == list[a].dir);
        assert(after[b].dir == list[b].dir);
    }
}

/// Removing a link keeps the `Forward` links first.
pub proof fn lemma_remove_grouped(list: Seq<LinkView>, j: int)
    requires
        grouped(list),
        0 <= j < list.len(),
    ensures
        grouped(list.remove(j)),
{
    let after = list.remove(j);
    assert forall|a: int, b: int|
        0 <= a < b < after.len() && (#[trigger] after[a]).dir
            == IdxLinkDir::Backward implies (#[trigger] after[b]).dir == IdxLinkDir::Backward by {
        let a0 = if a < j {
            a
        } else {
            a + 1
        };
        let b0 = if b < j {
            b
        } else {
            b + 1
        };
        assert(after[a] == list[a0]);
        assert(after[b] == list[b0]);
    }
}

} // verus!
