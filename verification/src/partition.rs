//! Cutting a slice into the maximal runs of items that share a key.

use std::ops::Range;
use vstd::laws_eq::obeys_concrete_eq;
use vstd::prelude::*;
use vstd::slice::slice_subrange;

verus! {

/// The key function gives one key for one item: two calls on the same item
/// cannot differ.
pub open spec fn single_valued<K, V, F: Fn(&V) -> K>(f: &F) -> bool {
    forall|x: &V, a: K, b: K|
        #![trigger call_ensures(*f, (x,), a), call_ensures(*f, (x,), b)]
        call_ensures(*f, (x,), a) && call_ensures(*f, (x,), b) ==> a == b
}

/// The key function can be called on every item of the slice.
pub open spec fn callable_on<K, V, F: Fn(&V) -> K>(f: &F, items: Seq<V>) -> bool {
    forall|i: int| 0 <= i < items.len() ==> call_requires(*f, (&#[trigger] items[i],))
}

/// `keys` holds, item by item, the keys that the key function gives.
pub open spec fn keys_of<K, V, F: Fn(&V) -> K>(f: &F, items: Seq<V>, keys: Seq<K>) -> bool {
    &&& keys.len() == items.len()
    &&& forall|i: int| 0 <= i < items.len() ==> call_ensures(*f, (&items[i],), #[trigger] keys[i])
}

/// `runs` cuts the positions `base .. base + keys.len()` into the maximal
/// runs of equal keys: the runs are not empty, follow one another without a
/// gap from `base` to the end, each carries the key of all its items, and two
/// neighbours carry different keys.
pub open spec fn is_partition<K>(keys: Seq<K>, base: int, runs: Seq<(K, Range<usize>)>) -> bool {
    &&& (keys.len() == 0 <==> runs.len() == 0)
    &&& runs.len() > 0 ==> runs[0].1.start == base && runs.last().1.end == base + keys.len()
    &&& forall|j: int| 0 <= j < runs.len() ==> (#[trigger] runs[j]).1.start < runs[j].1.end
    &&& forall|j: int|
        0 <= j < runs.len() - 1 ==> (#[trigger] runs[j]).1.end == runs[j + 1].1.start && runs[j].0
            != runs[j + 1].0
    &&& forall|j: int, i: int|
        0 <= j < runs.len() && (#[trigger] runs[j]).1.start <= base + i < runs[j].1.end && 0 <= i
            < keys.len() ==> #[trigger] keys[i] == runs[j].0
}

/// `runs` cuts the positions `base .. base + items.len()` into the maximal
/// runs of items to which the key function gives equal keys.
pub open spec fn cuts<K, V, F: Fn(&V) -> K>(
    f: &F,
    items: Seq<V>,
    base: int,
    runs: Seq<(K, Range<usize>)>,
) -> bool {
    exists|keys: Seq<K>| keys_of(f, items, keys) && is_partition(keys, base, runs)
}

/// Runs that follow one another lie within `base .. base + len`.
pub proof fn lemma_runs_within<K>(keys: Seq<K>, base: int, runs: Seq<(K, Range<usize>)>, j: int)
    requires
        is_partition(keys, base, runs),
        0 <= j < runs.len(),
    ensures
        base <= runs[j].1.start < runs[j].1.end <= base + keys.len(),
{
    lemma_runs_rise(keys, base, runs, 0, j);
    lemma_runs_rise(keys, base, runs, j, runs.len() - 1);
}

/// A later run starts no earlier than an earlier one ends or, for the same
/// run, starts.
pub proof fn lemma_runs_rise<K>(
    keys: Seq<K>,
    base: int,
    runs: Seq<(K, Range<usize>)>,
    a: int,
    b: int,
)
    requires
        is_partition(keys, base, runs),
        0 <= a <= b < runs.len(),
    ensures
        runs[a].1.start <= runs[b].1.start,
        runs[a].1.end <= runs[b].1.end,
    decreases b - a,
{
    if a < b {
        lemma_runs_rise(keys, base, runs, a, b - 1);
        assert(runs[b - 1].1.end == runs[b].1.start);
        assert(runs[b - 1].1.start < runs[b - 1].1.end);
        assert(runs[b].1.start < runs[b].1.end);
    }
}

/// Two partitions, of a slice up to a point where the key changes and of the
/// rest, make a partition of the whole.
pub proof fn lemma_partitions_join<K>(
    keys: Seq<K>,
    base: int,
    half: int,
    left: Seq<(K, Range<usize>)>,
    right: Seq<(K, Range<usize>)>,
)
    requires
        0 < half < keys.len(),
        keys[half - 1] != keys[half],
        is_partition(keys.subrange(0, half), base, left),
        is_partition(keys.subrange(half, keys.len() as int), base + half, right),
    ensures
        is_partition(keys, base, left + right),
{
    let lk = keys.subrange(0, half);
    let rk = keys.subrange(half, keys.len() as int);
    let runs = left + right;
    let n = left.len() as int;
    assert(left.len() > 0 && right.len() > 0);
    assert(runs[0] == left[0]);
    assert(runs.last() == right.last());
    assert forall|j: int| 0 <= j < runs.len() implies (#[trigger] runs[j]).1.start
        < runs[j].1.end by {
        if j < n {
            assert(runs[j] == left[j]);
        } else {
            assert(runs[j] == right[j - n]);
        }
    }
    assert forall|j: int, i: int|
        0 <= j < runs.len() && (#[trigger] runs[j]).1.start <= base + i < runs[j].1.end && 0 <= i
            < keys.len() implies #[trigger] keys[i] == runs[j].0 by {
        if j < n {
            assert(runs[j] == left[j]);
            lemma_runs_within(lk, base, left, j);
            assert(lk[i] == keys[i]);
        } else {
            assert(runs[j] == right[j - n]);
            lemma_runs_within(rk, base + half, right, j - n);
            assert(rk[i - half] == keys[i]);
        }
    }
    assert forall|j: int| 0 <= j < runs.len() - 1 implies (#[trigger] runs[j]).1.end == runs[j
        + 1].1.start && runs[j].0 != runs[j + 1].0 by {
        if j < n - 1 {
            assert(runs[j] == left[j]);
            assert(runs[j + 1] == left[j + 1]);
        } else if j == n - 1 {
            assert(runs[j] == left[n - 1]);
            assert(runs[j + 1] == right[0]);
            assert(left.last() == left[n - 1]);
            lemma_runs_within(lk, base, left, n - 1);
            lemma_runs_within(rk, base + half, right, 0);
            assert(lk[half - 1] == left[n - 1].0);
            assert(rk[0] == right[0].0);
        } else {
            assert(runs[j] == right[j - n]);
            assert(runs[j + 1] == right[j + 1 - n]);
        }
    }
}

/// A slice whose items all have one key is one run.
pub proof fn lemma_partition_bounds<K>(keys: Seq<K>, base: int, runs: Seq<(K, Range<usize>)>)
    requires
        is_partition(keys, base, runs),
    ensures
        forall|j: int|
            0 <= j < runs.len() ==> base <= (#[trigger] runs[j]).1.start < runs[j].1.end <= base
                + keys.len(),
{
    assert forall|j: int| 0 <= j < runs.len() implies base <= (#[trigger] runs[j]).1.start
        < runs[j].1.end <= base + keys.len() by {
        lemma_runs_within(keys, base, runs, j);
    }
}

/// A partition of the first `start` keys, followed by one run for the rest
/// of the keys, which are all equal and differ from the key before them, is
/// a partition of all the keys.
pub proof fn lemma_push_run<K>(
    keys: Seq<K>,
    base: int,
    runs: Seq<(K, Range<usize>)>,
    start: int,
    run: (K, Range<usize>),
)
    requires
        0 <= start < keys.len(),
        start == 0 ==> runs.len() == 0,
        start > 0 ==> is_partition(keys.take(start), base, runs),
        start > 0 ==> keys[start - 1] != run.0,
        forall|k: int| start <= k < keys.len() ==> keys[k] == run.0,
        run.1.start == base + start,
        run.1.end == base + keys.len(),
    ensures
        is_partition(keys, base, runs.push(run)),
{
    let out = runs.push(run);
    let n = runs.len() as int;
    assert(out[n] == run);
    assert(out.last() == run);
    if start == 0 {
        assert(out[0] == run);
    } else {
        let head = keys.take(start);
        lemma_partition_bounds(head, base, runs);
        assert(n > 0);
        assert(out[0] == runs[0]);
        assert(runs.last() == runs[n - 1]);
        assert forall|j: int| 0 <= j < out.len() implies (#[trigger] out[j]).1.start
            < out[j].1.end by {
            if j < n {
                assert(out[j] == runs[j]);
            }
        }
        assert forall|j: int, k: int|
            0 <= j < out.len() && (#[trigger] out[j]).1.start <= base + k < out[j].1.end && 0 <= k
                < keys.len() implies #[trigger] keys[k] == out[j].0 by {
            if j < n {
                assert(out[j] == runs[j]);
                assert(head[k] == keys[k]);
            }
        }
        assert forall|j: int| 0 <= j < out.len() - 1 implies (#[trigger] out[j]).1.end == out[j
            + 1].1.start && out[j].0 != out[j + 1].0 by {
            if j < n - 1 {
                assert(out[j] == runs[j]);
                assert(out[j + 1] == runs[j + 1]);
            } else {
                assert(out[j] == runs[n - 1]);
                assert(head[start - 1] == runs[n - 1].0);
            }
        }
    }
}

/// `partition_range_by_key` returns range of slice which items have same key.
pub fn partition_range_by_key<'a, K, V, F>(v: &'a [V], f: F) -> (out: Vec<(K, Range<usize>)>) where
    K: Eq,
    F: Fn(&V) -> K,

    requires
        obeys_concrete_eq::<K>(),
        callable_on(&f, v@),
        single_valued(&f),
    ensures
        cuts(&f, v@, 0, out@),
{
    let _len = v.len();
    ranges_of(0, v, &f)
}

/// The runs of `v`, at the positions `base ..`.
pub fn ranges_of<K, V, F>(base: usize, v: &[V], f: &F) -> (out: Vec<(K, Range<usize>)>) where
    K: Eq,
    F: Fn(&V) -> K,

    requires
        obeys_concrete_eq::<K>(),
        callable_on(f, v@),
        single_valued(f),
        base + v@.len() <= usize::MAX,
    ensures
        cuts(f, v@, base as int, out@),
{
    let len = v.len();
    let mut out: Vec<(K, Range<usize>)> = Vec::new();
    if len == 0 {
        proof {
            let keys = Seq::<K>::empty();
            assert(keys_of(f, v@, keys));
            assert(is_partition(keys, base as int, out@));
        }
        return out;
    }
    let mut start_idx: usize = 0;
    let mut cur_id: K = f(&v[0]);
    let ghost mut keys: Seq<K> = seq![cur_id];
    let mut i: usize = 1;
    while i < len
        invariant
            obeys_concrete_eq::<K>(),
            callable_on(f, v@),
            len == v@.len(),
            base + len <= usize::MAX,
            1 <= i <= len,
            start_idx < i,
            keys.len() == i,
            forall|k: int| 0 <= k < i ==> call_ensures(*f, (&v@[k],), #[trigger] keys[k]),
            forall|k: int| start_idx <= k < i ==> keys[k] == cur_id,
            start_idx > 0 ==> keys[start_idx - 1] != cur_id,
            start_idx == 0 ==> out@.len() == 0,
            start_idx > 0 ==> is_partition(keys.take(start_idx as int), base as int, out@),
        decreases len - i,
    {
        let id: K = f(&v[i]);
        let ghost old_keys = keys;
        proof {
            reveal(obeys_concrete_eq);
            keys = keys.push(id);
            assert(keys.take(start_idx as int) =~= old_keys.take(start_idx as int));
        }
        if cur_id != id {
            let ghost cur = cur_id;
            let ghost old_out = out@;
            out.push((cur_id, base + start_idx..base + i));
            proof {
                let run = out@[out@.len() - 1];
                assert(out@ =~= old_out.push(run));
                assert(old_keys.take(start_idx as int) =~= keys.take(i as int).take(
                    start_idx as int,
                ));
                assert(keys.take(i as int) =~= old_keys);
                lemma_push_run(old_keys, base as int, old_out, start_idx as int, run);
            }
            cur_id = id;
            start_idx = i;
        }
        i += 1;
    }
    let ghost old_out = out@;
    out.push((cur_id, base + start_idx..base + len));
    proof {
        let run = out@[out@.len() - 1];
        assert(out@ =~= old_out.push(run));
        lemma_push_run(keys, base as int, old_out, start_idx as int, run);
        assert(keys_of(f, v@, keys));
    }
    out
}

/// `rayon::join` on the two halves of a slice: it runs both closures,
/// possibly on two threads, and hands back what each returned. Each closure
/// is one call of `par_partition_range_by_key_inner`, whose contract is
/// repeated here for each half.
#[verifier::external_body]
fn join_halves<K, V, F>(
    base: usize,
    left_v: &[V],
    right_base: usize,
    right_v: &[V],
    f: &F,
) -> (r: (Vec<(K, Range<usize>)>, Vec<(K, Range<usize>)>)) where
    V: Sync,
    K: Eq + Send,
    F: Fn(&V) -> K + Send + Sync,

    requires
        obeys_concrete_eq::<K>(),
        callable_on(f, left_v@),
        callable_on(f, right_v@),
        single_valued(f),
        base + left_v@.len() <= usize::MAX,
        right_base + right_v@.len() <= usize::MAX,
    ensures
        cuts(f, left_v@, base as int, r.0@),
        cuts(f, right_v@, right_base as int, r.1@),
{
    rayon::join(
        || par_partition_range_by_key_inner(base, left_v, f),
        || par_partition_range_by_key_inner(right_base, right_v, f),
    )
}

/// The runs of `v`, at the positions `base ..`: the slice is cut in two
/// where the run that holds its middle ends, and the halves are handled side
/// by side.
pub fn par_partition_range_by_key_inner<'a, K, V, F>(base: usize, v: &'a [V], f: &F) -> (out: Vec<
    (K, Range<usize>),
>) where V: Sync, K: Eq + Send, F: Fn(&V) -> K + Send + Sync
    requires
        obeys_concrete_eq::<K>(),
        callable_on(f, v@),
        single_valued(f),
        base + v@.len() <= usize::MAX,
    ensures
        cuts(f, v@, base as int, out@),
{
    let len = v.len();
    if len == 0 {
        return ranges_of(base, v, f);
    }
    let mut half: usize = len / 2;
    let half_key: K = f(&v[half]);
    let ghost mut last_key: K = half_key;
    half += 1;
    while half < len
        invariant_except_break
            last_key == half_key,
        invariant
            obeys_concrete_eq::<K>(),
            callable_on(f, v@),
            len == v@.len(),
            1 <= half <= len,
            call_ensures(*f, (&v@[half - 1],), half_key),
        ensures
            half < len ==> call_ensures(*f, (&v@[half as int],), last_key) && last_key != half_key,
        decreases len - half,
    {
        let key: K = f(&v[half]);
        proof {
            reveal(obeys_concrete_eq);
            last_key = key;
        }
        if half_key != key {
            break ;
        }
        half += 1;
    }
    if half == len {
        // failed to split, run serial version
        ranges_of(base, v, f)
    } else {
        let (left_v, right_v) = v.split_at(half);
        let (mut left, mut right) = join_halves(base, left_v, base + half, right_v, f);
        let ghost left_runs = left@;
        let ghost right_runs = right@;
        left.append(&mut right);
        proof {
            let lk = choose|keys: Seq<K>|
                keys_of(f, left_v@, keys) && is_partition(keys, base as int, left_runs);
            let rk = choose|keys: Seq<K>|
                keys_of(f, right_v@, keys) && is_partition(keys, base + half, right_runs);
            let keys = lk + rk;
            assert(v@ =~= left_v@ + right_v@);
            assert(keys_of(f, v@, keys)) by {
                assert forall|i: int| 0 <= i < v@.len() implies call_ensures(
                    *f,
                    (&v@[i],),
                    #[trigger] keys[i],
                ) by {
                    if i < half {
                        assert(v@[i] == left_v@[i]);
                        assert(keys[i] == lk[i]);
                    } else {
                        assert(v@[i] == right_v@[i - half]);
                        assert(keys[i] == rk[i - half]);
                    }
                }
            }
            assert(keys.subrange(0, half as int) =~= lk);
            assert(keys.subrange(half as int, keys.len() as int) =~= rk);
            assert(keys[half - 1] == half_key) by {
                assert(v@[half - 1] == left_v@[half - 1]);
                assert(call_ensures(*f, (&v@[half - 1],), lk[half - 1]));
            }
            assert(keys[half as int] == last_key) by {
                assert(v@[half as int] == right_v@[0]);
                assert(call_ensures(*f, (&v@[half as int],), rk[0]));
            }
            lemma_partitions_join(keys, base as int, half as int, left_runs, right_runs);
        }
        left
    }
}

/// `par_partition_range_by_key` returns range of slice which items have same key.
pub fn par_partition_range_by_key<'a, K, V, F>(v: &'a [V], f: F) -> (out: Vec<
    (K, Range<usize>),
>) where V: Sync, K: Eq + Send, F: Fn(&V) -> K + Send + Sync
    requires
        obeys_concrete_eq::<K>(),
        callable_on(&f, v@),
        single_valued(&f),
    ensures
        cuts(&f, v@, 0, out@),
{
    let _len = v.len();
    par_partition_range_by_key_inner(0, v, &f)
}

/// `partition_by_key` returns vector of slice which items have same key.
pub fn partition_by_key<'a, K, V, F>(vec: &'a [V], f: F) -> (out: Vec<(K, &'a [V])>) where
    V: Sync,
    K: Eq + Send,
    F: Fn(&V) -> K + Send + Sync,

    requires
        obeys_concrete_eq::<K>(),
        callable_on(&f, vec@),
        single_valued(&f),
    ensures
        exists|keys: Seq<K>, runs: Seq<(K, Range<usize>)>|
            {
                &&& keys_of(&f, vec@, keys)
                &&& is_partition(keys, 0, runs)
                &&& out@.len() == runs.len()
                &&& forall|j: int|
                    0 <= j < runs.len() ==> (#[trigger] out@[j]).0 == runs[j].0 && out@[j].1@
                        == vec@.subrange(runs[j].1.start as int, runs[j].1.end as int)
            },
{
    let ranges = par_partition_range_by_key(vec, f);
    let ghost runs = ranges@;
    let ghost keys = choose|keys: Seq<K>| keys_of(&f, vec@, keys) && is_partition(keys, 0, runs);
    proof {
        lemma_partition_bounds(keys, 0, runs);
    }
    let mut out: Vec<(K, &'a [V])> = Vec::new();
    for item in it: ranges
        invariant
            it.seq() == runs,
            keys.len() == vec@.len(),
            forall|j: int|
                0 <= j < runs.len() ==> 0 <= (#[trigger] runs[j]).1.start < runs[j].1.end
                    <= keys.len(),
            out@.len() == it.index(),
            forall|j: int|
                0 <= j < out@.len() ==> (#[trigger] out@[j]).0 == runs[j].0 && out@[j].1@
                    == vec@.subrange(runs[j].1.start as int, runs[j].1.end as int),
    {
        let (k, r) = item;
        let part = slice_subrange(vec, r.start, r.end);
        out.push((k, part));
    }
    out
}

} // verus!
