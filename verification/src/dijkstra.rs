//! The search kernel: a queue of tentative costs, a record per reached node,
//! and three limits that the caller may set between steps.

use crate::heap::{MinHeap, Ranked};
use crate::network::IdxNodeKey;
use crate::tables::{map_clear, map_get, map_insert, map_len, map_with_capacity, CAPACITY_HINT_MAX};
use fnv::FnvHashMap;
use vstd::multiset::*;
use vstd::prelude::*;

verus! {

/// A tentative cost of reaching `key`, over `hop` links.
#[derive(Clone, Copy, Debug)]
pub struct HeapEntry<K> {
    pub cost: u32,
    pub hop: u16,
    pub key: K,
}

impl<K: Copy> Ranked for HeapEntry<K> {
    open spec fn rank(&self) -> int {
        self.cost as int
    }

    fn outranks(&self, other: &Self) -> (b: bool) {
        self.cost < other.cost
    }
}

/// What a search knows of a node it has reached: the best cost so far, the
/// node before it on that way, and whether the cost is final.
#[derive(Clone, Copy, Debug)]
pub struct Cost<K> {
    pub prev_key: K,
    pub cost: u32,
    pub visited: bool,
}

/// A queue entry of a search over node keys.
pub type Entry = HeapEntry<IdxNodeKey>;

/// A record of a search over node keys.
pub type Record = Cost<IdxNodeKey>;

/// The count of entries after one more was added. It stops short of
/// `usize::MAX`, so that a heap limit of `usize::MAX` turns no entry away.
pub open spec fn next_count(count: usize) -> usize {
    if count + 1 < usize::MAX {
        (count + 1) as usize
    } else {
        count
    }
}

/// The node has a record and its cost is final.
pub open spec fn settled(records: Map<u32, Record>, key: u32) -> bool {
    records.contains_key(key) && records[key].visited
}

/// The way back from `key`: the key, then the node before it, and so on, up
/// to a node that has no record or is its own predecessor, over at most
/// `fuel` steps.
pub open spec fn walk_back(records: Map<u32, Record>, key: IdxNodeKey, fuel: nat) -> Seq<
    IdxNodeKey,
>
    decreases fuel,
{
    if fuel == 0 || !records.contains_key(key.0) || records[key.0].prev_key == key {
        seq![key]
    } else {
        seq![key] + walk_back(records, records[key.0].prev_key, (fuel - 1) as nat)
    }
}

/// A single-source search that the caller drives step by step.
pub struct Search {
    pub heap: MinHeap<Entry>,
    pub min_costs: FnvHashMap<u32, Record>,
    // constraint
    /// do not find path which cost is greater than or *equal* to cost_limit.
    pub cost_limit: u32,
    /// limit maximum # of heap items.
    pub heap_limit: usize,
    pub hop_limit: u16,
    // metrics
    pub added_count: usize,
}

impl Search {
    /// The entries that wait in the queue.
    pub open spec fn queue(&self) -> Multiset<Entry> {
        self.heap@
    }

    /// The record of each reached node, by the node's index.
    pub open spec fn records(&self) -> Map<u32, Record> {
        self.min_costs@
    }

    /// How many entries `update` has added.
    pub open spec fn added(&self) -> usize {
        self.added_count
    }

    /// The queue is in heap order and the records are finitely many.
    pub open spec fn wf(&self) -> bool {
        &&& self.heap.wf()
        &&& self.min_costs@.dom().finite()
    }

    /// A well-formed search has finitely many records.
    pub proof fn lemma_finite(&self)
        requires
            self.wf(),
        ensures
            self.records().dom().finite(),
    {
    }

    /// Whether `update` takes the step from `entry` to `next_key` at
    /// `next_cost`: no limit is reached, and the node is new or not final and
    /// reached at a strictly lower cost than before.
    pub open spec fn admits(&self, entry: &Entry, next_key: IdxNodeKey, next_cost: u32) -> bool {
        &&& self.added() < self.heap_limit
        &&& entry.hop < self.hop_limit
        &&& next_cost < self.cost_limit
        &&& (self.records().contains_key(next_key.0) ==> !self.records()[next_key.0].visited
            && next_cost < self.records()[next_key.0].cost)
    }

    /// The same limits and the same count of added entries as `other`.
    pub open spec fn same_limits(&self, other: &Search) -> bool {
        &&& self.cost_limit == other.cost_limit
        &&& self.heap_limit == other.heap_limit
        &&& self.hop_limit == other.hop_limit
        &&& self.added() == other.added()
    }

    /// A search without limits, nothing reached.
    pub fn new() -> (search: Self)
        ensures
            search.wf(),
            search.queue() == Multiset::<Entry>::empty(),
            search.records() == Map::<u32, Record>::empty(),
            search.cost_limit == u32::MAX,
            search.heap_limit == usize::MAX,
            search.hop_limit == u16::MAX,
            search.added() == 0,
    {
        Self::with_capacity(512)
    }

    /// A search without limits, nothing reached, with room set aside for
    /// `capacity` records (at most `CAPACITY_HINT_MAX` are set aside).
    pub fn with_capacity(capacity: usize) -> (search: Self)
        ensures
            search.wf(),
            search.queue() == Multiset::<Entry>::empty(),
            search.records() == Map::<u32, Record>::empty(),
            search.cost_limit == u32::MAX,
            search.heap_limit == usize::MAX,
            search.hop_limit == u16::MAX,
            search.added() == 0,
    {
        let hint = if capacity > CAPACITY_HINT_MAX {
            CAPACITY_HINT_MAX
        } else {
            capacity
        };
        let min_costs = map_with_capacity(hint);
        assert(min_costs@ =~= Map::<u32, Record>::empty());
        Self {
            heap: MinHeap::new(),
            min_costs,
            cost_limit: u32::MAX,
            heap_limit: usize::MAX,
            hop_limit: u16::MAX,
            added_count: 0,
        }
    }

    /// Forgets what was reached; the limits stay.
    pub fn clear(&mut self)
        ensures
            final(self).wf(),
            final(self).queue() == Multiset::<Entry>::empty(),
            final(self).records() == Map::<u32, Record>::empty(),
            final(self).cost_limit == old(self).cost_limit,
            final(self).heap_limit == old(self).heap_limit,
            final(self).hop_limit == old(self).hop_limit,
            final(self).added() == 0,
    {
        self.heap.clear();
        map_clear(&mut self.min_costs);
        assert(self.min_costs@ =~= Map::<u32, Record>::empty());
        self.added_count = 0;
    }

    /// Makes `src` a source: it is reached at cost 0 over 0 hops, and is its
    /// own predecessor.
    pub fn add_src(&mut self, src: IdxNodeKey)
        requires
            old(self).wf(),
        ensures
            final(self).wf(),
            final(self).same_limits(old(self)),
            final(self).queue() == old(self).queue().insert(
                HeapEntry { key: src, hop: 0, cost: 0 },
            ),
            final(self).records() == old(self).records().insert(
                src.0,
                Cost { prev_key: src, cost: 0, visited: false },
            ),
    {
        // initial condition
        self.heap.push(HeapEntry { key: src, hop: 0, cost: 0 });
        map_insert(&mut self.min_costs, src.0, Cost { prev_key: src, cost: 0, visited: false });
    }

    /// Takes entries out of the queue, cheapest first, until one is found
    /// whose node is not final yet: that node becomes final and the entry is
    /// returned. Entries of final nodes are dropped on the way. The search is
    /// over, `None`, when the queue runs empty or the cheapest entry reaches
    /// `cost_limit`; that entry is dropped too.
    #[inline]
    pub fn next(&mut self) -> (r: Option<Entry>)
        requires
            old(self).wf(),
        ensures
            final(self).wf(),
            final(self).same_limits(old(self)),
            final(self).queue().subset_of(old(self).queue()),
            match r {
                Some(e) => {
                    &&& old(self).queue().contains(e)
                    &&& e.cost < old(self).cost_limit
                    &&& !settled(old(self).records(), e.key.0)
                    &&& final(self).records() == if old(self).records().contains_key(e.key.0) {
                        old(self).records().insert(
                            e.key.0,
                            Cost { visited: true, ..old(self).records()[e.key.0] },
                        )
                    } else {
                        old(self).records()
                    }
                    &&& final(self).queue().count(e) == old(self).queue().count(e) - 1
                    &&& forall|x: Entry| #[trigger]
                        final(self).queue().contains(x) ==> e.cost <= x.cost
                    &&& forall|x: Entry|
                        x != e && #[trigger] final(self).queue().count(x) < old(
                            self,
                        ).queue().count(x) ==> settled(old(self).records(), x.key.0) && x.cost
                            <= e.cost
                },
                None => {
                    &&& final(self).records() == old(self).records()
                    &&& forall|x: Entry| #[trigger]
                        final(self).queue().contains(x) ==> old(self).cost_limit <= x.cost
                    &&& forall|x: Entry| #[trigger]
                        final(self).queue().count(x) < old(self).queue().count(x) ==> settled(
                            old(self).records(),
                            x.key.0,
                        ) || old(self).cost_limit <= x.cost
                },
            },
    {
        loop
            invariant
                self.wf(),
                self.same_limits(old(self)),
                self.records() == old(self).records(),
                self.queue().subset_of(old(self).queue()),
                forall|x: Entry| #[trigger]
                    self.queue().count(x) < old(self).queue().count(x) ==> settled(
                        old(self).records(),
                        x.key.0,
                    ),
                forall|x: Entry, y: Entry|
                    #[trigger] self.queue().count(x) < old(self).queue().count(x)
                        && #[trigger] self.queue().contains(y) ==> x.cost <= y.cost,
            decreases self.queue().len(),
        {
            let ghost before = self.queue();
            match self.heap.pop() {
                None => {
                    assert forall|x: Entry| #[trigger] self.queue().contains(x) implies old(
                        self,
                    ).cost_limit <= x.cost by {
                        assert(self.queue().count(x) > 0);
                        assert(self.queue().len() == 0);
                    }
                    return None;
                },
                Some(entry) => {
                    assert(self.queue() == before.remove(entry));
                    assert(before.count(entry) > 0);
                    assert forall|y: Entry| #[trigger] self.queue().contains(y) implies entry.cost
                        <= y.cost by {
                        assert(before.contains(y));
                        assert(entry.rank() <= y.rank());
                    }
                    if self.cost_limit <= entry.cost {
                        return None;
                    }
                    // check if key is already visited

                    match map_get(&self.min_costs, entry.key.0) {
                        Some(m) => {
                            if m.visited {
                                continue ;
                            }
                            let reached = Cost {
                                prev_key: m.prev_key,
                                cost: m.cost,
                                visited: true,
                            };
                            map_insert(&mut self.min_costs, entry.key.0, reached);
                        },
                        None => {},
                    }
                    assert forall|x: Entry|
                        x != entry && #[trigger] self.queue().count(x) < old(self).queue().count(
                            x,
                        ) implies settled(old(self).records(), x.key.0) && x.cost
                        <= entry.cost by {
                        assert(before.count(x) == self.queue().count(x));
                        assert(before.contains(entry));
                    }
                    assert(self.queue().count(entry) == old(self).queue().count(entry) - 1) by {
                        if before.count(entry) < old(self).queue().count(entry) {
                            assert(settled(old(self).records(), entry.key.0));
                        }
                    }
                    return Some(entry);
                },
            }
        }
    }

    /// Offers the step from the node of `entry` to `next_key` at `next_cost`.
    /// Taken, when `admits` holds, it records the cost with the node of
    /// `entry` as predecessor and queues an entry for `next_key` that counts
    /// one hop more than `entry`.
    #[inline]
    pub fn update(&mut self, entry: &Entry, next_key: IdxNodeKey, next_cost: u32) -> (taken: bool)
        requires
            old(self).wf(),
        ensures
            final(self).wf(),
            taken == old(self).admits(entry, next_key, next_cost),
            final(self).cost_limit == old(self).cost_limit,
            final(self).heap_limit == old(self).heap_limit,
            final(self).hop_limit == old(self).hop_limit,
            taken ==> {
                &&& final(self).records() == old(self).records().insert(
                    next_key.0,
                    Cost { prev_key: entry.key, cost: next_cost, visited: false },
                )
                &&& final(self).queue() == old(self).queue().insert(
                    HeapEntry { key: next_key, hop: (entry.hop + 1) as u16, cost: next_cost },
                )
                &&& final(self).added() == next_count(old(self).added())
            },
            !taken ==> {
                &&& final(self).records() == old(self).records()
                &&& final(self).queue() == old(self).queue()
                &&& final(self).added() == old(self).added()
            },
    {
        if self.heap_limit <= self.added_count {
            return false;
        }
        if self.hop_limit <= entry.hop {
            return false;
        }
        if self.cost_limit <= next_cost {
            return false;
        }
        let key = entry.key;
        let cost_item = Cost { prev_key: key, cost: next_cost, visited: false };
        match map_get(&self.min_costs, next_key.0) {
            Some(m) => {
                if m.visited || m.cost <= next_cost {
                    return false;
                }
            },
            None => {},
        }
        map_insert(&mut self.min_costs, next_key.0, cost_item);
        if self.added_count + 1 < usize::MAX {
            self.added_count += 1;
        }
        let hop: u16 = entry.hop + 1;
        self.heap.push(HeapEntry { key: next_key, hop, cost: next_cost });
        true
    }

    /// The way to `key`: from the node that is its own predecessor, or has no
    /// record, down to `key`. The walk back takes at most as many steps as
    /// there are records, which is enough wherever the predecessors form no
    /// cycle.
    pub fn decode(&self, key: IdxNodeKey) -> (path: Vec<IdxNodeKey>)
        requires
            self.wf(),
        ensures
            path@ == walk_back(self.records(), key, self.records().len()).reverse(),
            path@.len() >= 1,
            path@.last() == key,
    {
        let fuel = map_len(&self.min_costs);
        let mut back: Vec<IdxNodeKey> = Vec::new();
        back.push(key);
        let mut cur_key = key;
        let mut steps: usize = 0;
        let ghost recs = self.records();
        assert(back@ =~= seq![key]);
        assert(back@.drop_last() + walk_back(recs, key, fuel as nat) =~= walk_back(
            recs,
            key,
            fuel as nat,
        ));
        while steps < fuel
            invariant_except_break
                back@.drop_last() + walk_back(recs, cur_key, (fuel - steps) as nat) == walk_back(
                    recs,
                    key,
                    fuel as nat,
                ),
            invariant
                recs == self.records(),
                steps <= fuel,
                back@.len() == steps + 1,
                back@.last() == cur_key,
                back@[0] == key,
            ensures
                back@ == walk_back(recs, key, fuel as nat),
            decreases fuel - steps,
        {
            let ghost rest = walk_back(recs, cur_key, (fuel - steps) as nat);
            match map_get(&self.min_costs, cur_key.0) {
                None => {
                    assert(rest == seq![cur_key]);
                    assert(back@.drop_last() + seq![cur_key] =~= back@);
                    break ;
                },
                Some(prev_cost) => {
                    let prev_key = prev_cost.prev_key;
                    if prev_key == cur_key {
                        // starting node
                        assert(rest == seq![cur_key]);
                        assert(back@.drop_last() + seq![cur_key] =~= back@);
                        break ;
                    }
                    let ghost old_back = back@;
                    back.push(prev_key);
                    proof {
                        let tail = walk_back(recs, prev_key, (fuel - steps - 1) as nat);
                        assert(rest == seq![cur_key] + tail);
                        assert(back@.drop_last() =~= old_back);
                        assert(old_back =~= old_back.drop_last() + seq![cur_key]);
                        assert(back@.drop_last() + tail =~= old_back.drop_last() + rest);
                    }
                    cur_key = prev_key;
                    steps += 1;
                },
            }
        }
        proof {
            if steps == fuel {
                assert(walk_back(recs, cur_key, 0) == seq![cur_key]);
                assert(back@.drop_last() + seq![cur_key] =~= back@);
            }
        }
        let path = reversed(&back);
        path
    }

    /// The number of nodes that have a record.
    pub fn visited_len(&self) -> (n: usize)
        ensures
            n == self.records().len(),
    {
        map_len(&self.min_costs)
    }

    /// The record of the node `k`, if it was reached.
    pub fn get_cost(&self, k: &IdxNodeKey) -> (r: Option<&Record>)
        ensures
            match r {
                Some(c) => self.records().contains_key(k.0) && *c == self.records()[k.0],
                None => !self.records().contains_key(k.0),
            },
    {
        map_get(&self.min_costs, k.0)
    }
}

/// A well-formed search has finitely many records.
pub proof fn lemma_records_finite(s: &Search)
    requires
        s.wf(),
    ensures
        s.records().dom().finite(),
{
    s.lemma_finite();
}

/// The keys of `v` from the last to the first.
pub fn reversed(v: &Vec<IdxNodeKey>) -> (out: Vec<IdxNodeKey>)
    ensures
        out@ == v@.reverse(),
{
    let n = v.len();
    let mut out: Vec<IdxNodeKey> = Vec::with_capacity(n);
    let mut i: usize = 0;
    while i < n
        invariant
            n == v@.len(),
            i <= n,
            out@.len() == i,
            forall|j: int| 0 <= j < i ==> out@[j] == v@[n - 1 - j],
        decreases n - i,
    {
        out.push(v[n - 1 - i]);
        i += 1;
    }
    assert(out@ =~= v@.reverse());
    out
}

} // verus!
