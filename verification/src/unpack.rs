//! Unpacking: a way over shortcuts is turned into the way over the nodes
//! that the shortcuts stand for.

use crate::ch::{shortcut_within, CH};
use crate::dijkstra::reversed;
use crate::hierarchy::{shortcut_ok, shortcuts_ok};
use crate::network::IdxNodeKey;
use crate::ordered::equal_range_start;
use crate::shortcut::{sorted_by_start, CHContraction};
use vstd::prelude::*;

verus! {

/// The shortcut leads from `a` to `b`.
pub open spec fn fits(c: CHContraction, a: IdxNodeKey, b: IdxNodeKey) -> bool {
    c.snode_idx == a && c.enode_idx == b
}

/// Among the first `k` shortcuts, the position of the shortest one from `a`
/// to `b`, the first of them where several are as short.
pub open spec fn best_upto(
    list: Seq<CHContraction>,
    a: IdxNodeKey,
    b: IdxNodeKey,
    k: int,
) -> Option<int>
    decreases k,
{
    if k <= 0 {
        None
    } else {
        let prev = best_upto(list, a, b, k - 1);
        let c = list[k - 1];
        if fits(c, a, b) && (prev is None || c.length < list[prev.unwrap()].length) {
            Some(k - 1)
        } else {
            prev
        }
    }
}

/// The position of the shortest shortcut from `a` to `b`, if there is one.
pub open spec fn best(list: Seq<CHContraction>, a: IdxNodeKey, b: IdxNodeKey) -> Option<int> {
    best_upto(list, a, b, list.len() as int)
}

/// The best shortcut is one from `a` to `b`, and there is none where no
/// shortcut leads from `a` to `b`.
pub proof fn lemma_best_upto(list: Seq<CHContraction>, a: IdxNodeKey, b: IdxNodeKey, k: int)
    requires
        0 <= k <= list.len(),
    ensures
        match best_upto(list, a, b, k) {
            Some(i) => 0 <= i < k && fits(list[i], a, b),
            None => forall|j: int| 0 <= j < k ==> !fits(#[trigger] list[j], a, b),
        },
    decreases k,
{
    if k > 0 {
        lemma_best_upto(list, a, b, k - 1);
    }
}

/// No shortcut from `a` to `b` among the first `k` is shorter than the best.
pub proof fn lemma_best_least(list: Seq<CHContraction>, a: IdxNodeKey, b: IdxNodeKey, k: int, j: int)
    requires
        0 <= j < k <= list.len(),
        fits(list[j], a, b),
    ensures
        best_upto(list, a, b, k) is Some,
        list[best_upto(list, a, b, k).unwrap()].length <= list[j].length,
    decreases k,
{
    lemma_best_upto(list, a, b, k - 1);
    if j < k - 1 {
        lemma_best_least(list, a, b, k - 1, j);
    }
}

/// Shortcuts that do not lead from `a` to `b` do not change the best.
pub proof fn lemma_best_skips(
    list: Seq<CHContraction>,
    a: IdxNodeKey,
    b: IdxNodeKey,
    from: int,
    to: int,
)
    requires
        0 <= from <= to <= list.len(),
        forall|j: int| from <= j < to ==> !fits(#[trigger] list[j], a, b),
    ensures
        best_upto(list, a, b, to) == best_upto(list, a, b, from),
    decreases to - from,
{
    if from < to {
        lemma_best_skips(list, a, b, from, to - 1);
    }
}

/// The lower of the ranks of two nodes.
pub open spec fn pair_rank(ranks: Seq<u32>, a: IdxNodeKey, b: IdxNodeKey) -> nat {
    if ranks[a.0 as int] < ranks[b.0 as int] {
        ranks[a.0 as int] as nat
    } else {
        ranks[b.0 as int] as nat
    }
}

/// The shortcuts name nodes that have a rank, and each runs through a node
/// that was contracted before its ends.
pub open spec fn unpackable(ranks: Seq<u32>, list: Seq<CHContraction>) -> bool {
    &&& shortcuts_ok(ranks, list)
    &&& forall|i: int| 0 <= i < list.len() ==> shortcut_within(#[trigger] list[i], ranks.len() as int)
}

/// The nodes from `a` up to, but without, `b` on the way that the hop from
/// `a` to `b` stands for: where a shortcut leads from `a` to `b`, the shortest
/// one is replaced by the two hops through its middle node, and these again.
pub open spec fn expansion(
    list: Seq<CHContraction>,
    ranks: Seq<u32>,
    a: IdxNodeKey,
    b: IdxNodeKey,
) -> Seq<IdxNodeKey>
    decreases pair_rank(ranks, a, b),
    when unpackable(ranks, list) && a.0 < ranks.len() && b.0 < ranks.len()
    via expansion_decreases
{
    match best(list, a, b) {
        None => seq![a],
        Some(i) => expansion(list, ranks, a, list[i].mnode_idx) + expansion(
            list,
            ranks,
            list[i].mnode_idx,
            b,
        ),
    }
}

#[via_fn]
proof fn expansion_decreases(
    list: Seq<CHContraction>,
    ranks: Seq<u32>,
    a: IdxNodeKey,
    b: IdxNodeKey,
) {
    lemma_best_upto(list, a, b, list.len() as int);
    match best(list, a, b) {
        None => {},
        Some(i) => {
            assert(shortcut_ok(ranks, list[i]));
            assert(shortcut_within(list[i], ranks.len() as int));
        },
    }
}

/// The expansions of the hops of a way, one after the other.
pub open spec fn hops(list: Seq<CHContraction>, ranks: Seq<u32>, way: Seq<IdxNodeKey>) -> Seq<
    IdxNodeKey,
>
    decreases way.len(),
{
    if way.len() <= 1 {
        Seq::empty()
    } else {
        hops(list, ranks, way.drop_last()) + expansion(
            list,
            ranks,
            way[way.len() - 2],
            way[way.len() - 1],
        )
    }
}

/// The way with every hop expanded.
pub open spec fn unfolded(list: Seq<CHContraction>, ranks: Seq<u32>, way: Seq<IdxNodeKey>) -> Seq<
    IdxNodeKey,
> {
    if way.len() == 0 {
        Seq::empty()
    } else {
        hops(list, ranks, way) + seq![way.last()]
    }
}

/// Three to the power of `r + 1`.
pub open spec fn weight3(r: nat) -> nat
    decreases r,
{
    if r == 0 {
        3
    } else {
        3 * weight3((r - 1) as nat)
    }
}

/// A higher rank weighs at least three times as much.
pub proof fn lemma_weight3(r: nat, s: nat)
    requires
        r < s,
    ensures
        3 * weight3(r) <= weight3(s),
        weight3(r) >= 3,
    decreases s,
{
    if r > 0 {
        lemma_weight3((r - 1) as nat, r);
    }
    if r + 1 < s {
        lemma_weight3(r, (s - 1) as nat);
    }
}

/// What is left to unpack: the weights of the hops of the way, and its
/// length.
pub open spec fn load(ranks: Seq<u32>, way: Seq<IdxNodeKey>) -> nat
    decreases way.len(),
{
    if way.len() <= 1 {
        way.len()
    } else {
        load(ranks, way.drop_last()) + weight3(
            pair_rank(ranks, way[way.len() - 2], way[way.len() - 1]),
        ) + 1
    }
}

impl<'a> CH<'a> {
    /// The position of the shortest shortcut from `key1` to `key2`.
    pub fn find_shortcut(&self, key1: IdxNodeKey, key2: IdxNodeKey) -> (found: Option<usize>)
        requires
            sorted_by_start(self.shortcuts()),
        ensures
            match found {
                Some(i) => best(self.shortcuts(), key1, key2) == Some(i as int),
                None => best(self.shortcuts(), key1, key2) is None,
            },
    {
        let ghost list = self.shortcuts();
        // find contracted edge
        let (lo, hi) = equal_range_start(&self.all_contractions, key1.0);
        let mut found: Option<usize> = None;
        let mut minlen: u32 = u32::MAX;
        let mut i: usize = lo;
        proof {
            lemma_best_skips(list, key1, key2, 0, lo as int);
        }
        while i < hi
            invariant
                list == self.shortcuts(),
                lo <= i <= hi <= list.len(),
                match found {
                    Some(at) => best_upto(list, key1, key2, i as int) == Some(at as int) && at < i
                        && minlen == list[at as int].length,
                    None => best_upto(list, key1, key2, i as int) is None,
                },
            decreases hi - i,
        {
            let c = self.all_contractions[i];
            if c.enode_idx.0 == key2.0 && c.snode_idx.0 == key1.0 && (found.is_none() || c.length
                < minlen) {
                found = Some(i);
                minlen = c.length;
            }
            i += 1;
        }
        proof {
            lemma_best_skips(list, key1, key2, hi as int, list.len() as int);
        }
        found
    }

    /// The way over the nodes of the graph that `path`, a way over links and
    /// shortcuts, stands for: as long as a shortcut leads from a node of the
    /// way to the next, the shortest such shortcut gives way to its middle
    /// node.
    pub fn unpack(&self, path: Vec<IdxNodeKey>) -> (out: Vec<IdxNodeKey>)
        requires
            sorted_by_start(self.shortcuts()),
            unpackable(self.ranks(), self.shortcuts()),
            forall|i: int| 0 <= i < path@.len() ==> (#[trigger] path@[i]).0 < self.ranks().len(),
        ensures
            out@ == unfolded(self.shortcuts(), self.ranks(), path@),
    {
        let ghost list = self.shortcuts();
        let ghost ranks = self.ranks();
        let ghost raw = path@;
        let mut path = path;
        let mut decoded: Vec<IdxNodeKey> = Vec::new();
        proof {
            assert(decoded@.reverse() =~= Seq::<IdxNodeKey>::empty());
            assert(unfolded(list, ranks, raw) + Seq::<IdxNodeKey>::empty() =~= unfolded(
                list,
                ranks,
                raw,
            ));
        }
        // use path as a stack
        while path.len() > 0
            invariant
                list == self.shortcuts(),
                ranks == self.ranks(),
                sorted_by_start(list),
                unpackable(ranks, list),
                forall|i: int| 0 <= i < path@.len() ==> (#[trigger] path@[i]).0 < ranks.len(),
                unfolded(list, ranks, path@) + decoded@.reverse() == unfolded(list, ranks, raw),
            decreases load(ranks, path@),
        {
            let ghost stack = path@;
            let ghost done = decoded@;
            if path.len() == 1 {
                let only = path.pop().unwrap();
                decoded.push(only);
                proof {
                    assert(stack.drop_last() =~= Seq::<IdxNodeKey>::empty());
                    assert(hops(list, ranks, stack) =~= Seq::<IdxNodeKey>::empty());
                    assert(unfolded(list, ranks, stack) =~= seq![only]);
                    assert(decoded@.reverse() =~= seq![only] + done.reverse());
                    assert(unfolded(list, ranks, path@) + decoded@.reverse() =~= unfolded(
                        list,
                        ranks,
                        stack,
                    ) + done.reverse());
                }
                continue ;
            }
            let key2 = path.pop().unwrap();
            let key1 = path[path.len() - 1];
            let ghost shorter = path@;
            proof {
                assert(shorter == stack.drop_last());
                assert(key1 == stack[stack.len() - 2]);
                assert(key2 == stack[stack.len() - 1]);
                lemma_best_upto(list, key1, key2, list.len() as int);
            }
            match self.find_shortcut(key1, key2) {
                Some(at) => {
                    let c = self.all_contractions[at];
                    assert(shortcut_ok(ranks, list[at as int]));
                    assert(shortcut_within(list[at as int], ranks.len() as int));
                    path.push(c.mnode_idx);
                    path.push(key2);
                    proof {
                        let m = c.mnode_idx;
                        let mid = shorter.push(m);
                        let now = path@;
                        assert(now == mid.push(key2));
                        assert(now.drop_last() =~= mid);
                        assert(mid.drop_last() =~= shorter);
                        assert(now[now.len() - 2] == m);
                        assert(mid[mid.len() - 2] == key1);
                        let h = hops(list, ranks, shorter);
                        assert(hops(list, ranks, mid) == h + expansion(list, ranks, key1, m));
                        assert(hops(list, ranks, now) == hops(list, ranks, mid) + expansion(
                            list,
                            ranks,
                            m,
                            key2,
                        ));
                        assert(expansion(list, ranks, key1, key2) == expansion(
                            list,
                            ranks,
                            key1,
                            m,
                        ) + expansion(list, ranks, m, key2));
                        assert(hops(list, ranks, stack) == h + expansion(list, ranks, key1, key2));
                        assert(hops(list, ranks, now) =~= hops(list, ranks, stack));
                        assert(unfolded(list, ranks, now) =~= unfolded(list, ranks, stack));
                        // the load goes down
                        let r = pair_rank(ranks, key1, key2);
                        let rm = ranks[m.0 as int] as nat;
                        assert(pair_rank(ranks, key1, m) == rm);
                        assert(pair_rank(ranks, m, key2) == rm);
                        lemma_weight3(rm, r);
                        assert(load(ranks, mid) == load(ranks, shorter) + weight3(rm) + 1);
                        assert(load(ranks, now) == load(ranks, mid) + weight3(rm) + 1);
                        assert(load(ranks, stack) == load(ranks, shorter) + weight3(r) + 1);
                        assert forall|i: int| 0 <= i < now.len() implies (#[trigger] now[i]).0
                            < ranks.len() by {
                            if i < shorter.len() {
                                assert(now[i] == stack[i]);
                            }
                        }
                    }
                },
                None => {
                    decoded.push(key2);
                    proof {
                        assert(expansion(list, ranks, key1, key2) == seq![key1]);
                        let h = hops(list, ranks, shorter);
                        assert(hops(list, ranks, stack) == h + seq![key1]);
                        assert(shorter.last() == key1);
                        assert(unfolded(list, ranks, shorter) == h + seq![key1]);
                        assert(decoded@.reverse() =~= seq![key2] + done.reverse());
                        assert(unfolded(list, ranks, shorter) + decoded@.reverse() =~= unfolded(
                            list,
                            ranks,
                            stack,
                        ) + done.reverse());
                        assert(load(ranks, stack) == load(ranks, shorter) + weight3(
                            pair_rank(ranks, key1, key2),
                        ) + 1);
                    }
                },
            }
        }
        proof {
            assert(path@ =~= Seq::<IdxNodeKey>::empty());
            assert(Seq::<IdxNodeKey>::empty() + decoded@.reverse() =~= decoded@.reverse());
        }
        reversed(&decoded)
    }
}

} // verus!
