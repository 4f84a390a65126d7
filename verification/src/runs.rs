//! Run detection: a single left-to-right scan over a predicate bitmap that
//! yields the ascending list of maximal runs of true positions, each as a
//! half-open index interval. The union of the intervals is exactly the set of
//! true positions, and the intervals are pairwise disjoint.

use vstd::prelude::*;

verus! {

/// The index `i` lies inside one of the half-open intervals.
pub open spec fn covered(intervals: Seq<(usize, usize)>, i: int) -> bool {
    exists|j: int| 0 <= j < intervals.len() && (#[trigger] intervals[j]).0 <= i < intervals[j].1
}

/// `iv` is a maximal run of true positions in `bitmap`: non-empty, within
/// bounds, true throughout, and bordered by a false position or the row edge
/// on both sides.
pub open spec fn is_run(bitmap: Seq<bool>, iv: (usize, usize)) -> bool {
    &&& iv.0 < iv.1 <= bitmap.len()
    &&& (forall|i: int| iv.0 <= i < iv.1 ==> bitmap[i])
    &&& (iv.0 == 0 || !bitmap[iv.0 - 1])
    &&& (iv.1 < bitmap.len() ==> !bitmap[iv.1 as int])
}

/// `intervals` is exactly the ascending list of the maximal runs of true
/// positions of `bitmap`: every listed interval is a maximal run, consecutive
/// intervals are separated by at least one false position, and every true
/// position is covered by some interval.
pub open spec fn runs_of(bitmap: Seq<bool>, intervals: Seq<(usize, usize)>) -> bool {
    &&& (forall|j: int| 0 <= j < intervals.len() ==> is_run(bitmap, #[trigger] intervals[j]))
    &&& (forall|j: int| 0 < j < intervals.len() ==> intervals[j - 1].1 < (#[trigger] intervals[j]).0)
    &&& (forall|i: int| 0 <= i < bitmap.len() && bitmap[i] ==> covered(intervals, i))
}

/// An index covered by some interval of a list stays covered when another
/// interval is appended.
proof fn lemma_covered_push(intervals: Seq<(usize, usize)>, iv: (usize, usize), i: int)
    requires
        covered(intervals, i),
    ensures
        covered(intervals.push(iv), i),
{
    let j = choose|j: int| 0 <= j < intervals.len() && (#[trigger] intervals[j]).0 <= i
        < intervals[j].1;
    assert(intervals.push(iv)[j] == intervals[j]);
}

/// Scan the bitmap once, left to right: open an interval where the predicate
/// turns true, close it where the predicate turns false, and close a still
/// open interval at the end of the row. The result is the ascending list of
/// maximal runs of true positions.
pub fn into_intervals(bitmap: Vec<bool>) -> (result: Vec<(usize, usize)>)
    ensures
        runs_of(bitmap@, result@),
{
    let mut result: Vec<(usize, usize)> = Vec::new();
    let mut interval_start: Option<usize> = None;
    let n: usize = bitmap.len();

    for i in 0..n
        invariant
            n == bitmap@.len(),
            forall|j: int| 0 <= j < result@.len() ==> is_run(bitmap@, #[trigger] result@[j]),
            forall|j: int| 0 < j < result@.len() ==> result@[j - 1].1 < (#[trigger] result@[j]).0,
            forall|j: int| 0 <= j < result@.len() ==> (#[trigger] result@[j]).1 <= i,
            match interval_start {
                Some(s) => {
                    &&& s < i
                    &&& (forall|k: int| s <= k < i ==> bitmap@[k])
                    &&& (s == 0 || !bitmap@[s - 1])
                    &&& (forall|k: int| 0 <= k < s && bitmap@[k] ==> covered(result@, k))
                    &&& (forall|j: int|
                        0 <= j < result@.len() ==> (#[trigger] result@[j]).1 < s)
                },
                None => {
                    &&& (forall|k: int| 0 <= k < i && bitmap@[k] ==> covered(result@, k))
                    &&& (i == 0 || !bitmap@[i - 1])
                },
            },
    {
        if bitmap[i] == false && interval_start.is_some() {
            let ghost prev = result@;
            let iv = (interval_start.unwrap(), i);
            result.push(iv);
            interval_start = None;
            proof {
                assert forall|k: int| 0 <= k < i + 1 && bitmap@[k] implies covered(
                    result@,
                    k,
                ) by {
                    if k < iv.0 {
                        lemma_covered_push(prev, iv, k);
                    } else {
                        assert(result@[prev.len() as int] == iv);
                    }
                }
            }
        } else if bitmap[i] == true && interval_start.is_none() {
            interval_start = Some(i);
        }
    }

    if interval_start.is_some() {
        let ghost prev = result@;
        let iv = (interval_start.unwrap(), n);
        result.push(iv);
        proof {
            assert forall|k: int| 0 <= k < n && bitmap@[k] implies covered(result@, k) by {
                if k < iv.0 {
                    lemma_covered_push(prev, iv, k);
                } else {
                    assert(result@[prev.len() as int] == iv);
                }
            }
        }
    }

    result
}

/// The leftmost index of the stretch of true positions that reaches `i`:
/// walk left from `i` while the previous position is true.
pub open spec fn run_start(bitmap: Seq<bool>, i: int) -> int
    decreases i,
{
    if i <= 0 || !bitmap[i - 1] {
        i
    } else {
        run_start(bitmap, i - 1)
    }
}

/// One past the rightmost index of the stretch of true positions that
/// reaches `i`: walk right from `i` while the next position is true.
pub open spec fn run_end(bitmap: Seq<bool>, i: int) -> int
    decreases bitmap.len() - i,
{
    if i + 1 >= bitmap.len() || !bitmap[i + 1] {
        i + 1
    } else {
        run_end(bitmap, i + 1)
    }
}

/// `run_start` reaches a position that is true throughout up to `i` and has
/// a false position or the row edge on its left.
proof fn lemma_run_start(bitmap: Seq<bool>, i: int)
    requires
        0 <= i < bitmap.len(),
        bitmap[i],
    ensures
        0 <= run_start(bitmap, i) <= i,
        forall|k: int| run_start(bitmap, i) <= k <= i ==> bitmap[k],
        run_start(bitmap, i) == 0 || !bitmap[run_start(bitmap, i) - 1],
    decreases i,
{
    if i > 0 && bitmap[i - 1] {
        lemma_run_start(bitmap, i - 1);
    }
}

/// `run_end` reaches one past a position that is true throughout from `i`
/// and has a false position or the row edge on its right.
proof fn lemma_run_end(bitmap: Seq<bool>, i: int)
    requires
        0 <= i < bitmap.len(),
        bitmap[i],
    ensures
        i < run_end(bitmap, i) <= bitmap.len(),
        forall|k: int| i <= k < run_end(bitmap, i) ==> bitmap[k],
        run_end(bitmap, i) == bitmap.len() || !bitmap[run_end(bitmap, i)],
    decreases bitmap.len() - i,
{
    if i + 1 < bitmap.len() && bitmap[i + 1] {
        lemma_run_end(bitmap, i + 1);
    }
}

/// Every true position of the bitmap lies inside a maximal run, namely the
/// one delimited by `run_start` and `run_end`.
pub proof fn lemma_run_around(bitmap: Seq<bool>, i: int)
    requires
        0 <= i < bitmap.len(),
        bitmap.len() <= usize::MAX,
        bitmap[i],
    ensures
        is_run(bitmap, ((run_start(bitmap, i) as usize), (run_end(bitmap, i) as usize))),
        0 <= run_start(bitmap, i) <= i,
        i < run_end(bitmap, i) <= bitmap.len(),
{
    lemma_run_start(bitmap, i);
    lemma_run_end(bitmap, i);
}

/// In a run list, every earlier interval ends strictly before a later one
/// starts: the adjacent ordering extends to any pair.
pub proof fn lemma_runs_ordered(
    bitmap: Seq<bool>,
    intervals: Seq<(usize, usize)>,
    j: int,
    k: int,
)
    requires
        runs_of(bitmap, intervals),
        0 <= j < k < intervals.len(),
    ensures
        intervals[j].1 < intervals[k].0,
    decreases k - j,
{
    if j + 1 < k {
        lemma_runs_ordered(bitmap, intervals, j, k - 1);
        assert(is_run(bitmap, intervals[k - 1]));
    }
}

/// Two maximal runs that share a position are the same interval.
pub proof fn lemma_run_unique(
    bitmap: Seq<bool>,
    iv1: (usize, usize),
    iv2: (usize, usize),
    i: int,
)
    requires
        is_run(bitmap, iv1),
        is_run(bitmap, iv2),
        iv1.0 <= i < iv1.1,
        iv2.0 <= i < iv2.1,
    ensures
        iv1 == iv2,
{
    if iv1.0 < iv2.0 {
        assert(bitmap[iv2.0 - 1]);
    }
    if iv2.0 < iv1.0 {
        assert(bitmap[iv1.0 - 1]);
    }
    if iv1.1 < iv2.1 {
        assert(bitmap[iv1.1 as int]);
    }
    if iv2.1 < iv1.1 {
        assert(bitmap[iv2.1 as int]);
    }
}

} // verus!
