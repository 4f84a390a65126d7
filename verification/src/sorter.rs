//! Row sorting: compute the inclusion bitmap of a row under a metric and an
//! inclusive threshold range, derive the maximal in-range runs, and reorder
//! each run's pixels by ascending key, leaving every out-of-range pixel in
//! place. The image-level driver applies this to each row independently.

use vstd::prelude::*;

use crate::Pixel;
use crate::metric::{SortBy, key, key_spec, upper_boundary_spec};
use crate::runs::{
    covered, into_intervals, is_run, lemma_run_around, lemma_run_unique, lemma_runs_ordered,
    runs_of,
};

verus! {

broadcast use vstd::seq_lib::group_to_multiset_ensures;

/// The inclusion predicate: the pixel's key under the metric lies in the
/// inclusive threshold range [low, high].
pub open spec fn in_range(method: SortBy, low: u16, high: u16, p: Pixel) -> bool {
    low <= key_spec(method, p) && key_spec(method, p) <= high
}

/// The inclusion bitmap of a row: one flag per column.
pub open spec fn range_bitmap(method: SortBy, low: u16, high: u16, row: Seq<Pixel>) -> Seq<
    bool,
> {
    Seq::new(row.len(), |i: int| in_range(method, low, high, row[i]))
}

/// Keys ascend weakly along the sequence.
pub open spec fn sorted_by_key(method: SortBy, s: Seq<Pixel>) -> bool {
    forall|i: int, j: int|
        0 <= i < j < s.len() ==> key_spec(method, s[i]) <= key_spec(method, s[j])
}

/// The subsequence of `s` whose pixels have key `k` under the metric, in
/// order: what a sort must not rearrange for the ordering to be stable.
pub open spec fn key_filtered(method: SortBy, k: int, s: Seq<Pixel>) -> Seq<Pixel> {
    s.filter(|q: Pixel| key_spec(method, q) == k)
}

/// The key-`k` subsequence of a single pixel: the pixel itself when its key
/// is `k`, else empty.
proof fn lemma_key_filtered_singleton(method: SortBy, k: int, p: Pixel)
    ensures
        key_spec(method, p) == k ==> key_filtered(method, k, seq![p]) == seq![p],
        key_spec(method, p) != k ==> key_filtered(method, k, seq![p]) == Seq::<Pixel>::empty(),
{
    reveal(Seq::filter);
    let pred = |q: Pixel| key_spec(method, q) == k;
    assert(seq![p].drop_last() =~= Seq::<Pixel>::empty());
    assert(Seq::<Pixel>::empty().filter(pred) =~= Seq::<Pixel>::empty());
    assert(seq![p].last() == p);
    if key_spec(method, p) == k {
        assert(seq![p].filter(pred) =~= Seq::<Pixel>::empty().push(p));
        assert(Seq::<Pixel>::empty().push(p) =~= seq![p]);
    } else {
        assert(seq![p].filter(pred) =~= Seq::<Pixel>::empty());
    }
}

/// Swapping two adjacent pixels with different keys leaves every key's
/// subsequence unchanged.
proof fn lemma_key_filtered_swap(method: SortBy, s: Seq<Pixel>, j: int)
    requires
        1 <= j < s.len(),
        key_spec(method, s[j - 1]) != key_spec(method, s[j]),
    ensures
        forall|k: int|
            key_filtered(method, k, s.update(j - 1, s[j]).update(j, s[j - 1])) == key_filtered(
                method,
                k,
                s,
            ),
{
    let a = s[j - 1];
    let b = s[j];
    let t = s.update(j - 1, b).update(j, a);
    let pre = s.subrange(0, j - 1);
    let suf = s.subrange(j + 1, s.len() as int);
    assert forall|k: int| key_filtered(method, k, t) == key_filtered(method, k, s) by {
        reveal(Seq::filter);
        let pred = |q: Pixel| key_spec(method, q) == k;
        lemma_key_filtered_singleton(method, k, a);
        lemma_key_filtered_singleton(method, k, b);
        assert(s =~= pre + seq![a] + seq![b] + suf);
        assert(t =~= pre + seq![b] + seq![a] + suf);
        Seq::<Pixel>::filter_distributes_over_add(pre + seq![a] + seq![b], suf, pred);
        Seq::<Pixel>::filter_distributes_over_add(pre + seq![a], seq![b], pred);
        Seq::<Pixel>::filter_distributes_over_add(pre, seq![a], pred);
        Seq::<Pixel>::filter_distributes_over_add(pre + seq![b] + seq![a], suf, pred);
        Seq::<Pixel>::filter_distributes_over_add(pre + seq![b], seq![a], pred);
        Seq::<Pixel>::filter_distributes_over_add(pre, seq![b], pred);
        let fp = pre.filter(pred);
        let fa = seq![a].filter(pred);
        let fb = seq![b].filter(pred);
        let fs = suf.filter(pred);
        assert(s.filter(pred) == fp + fa + fb + fs);
        assert(t.filter(pred) == fp + fb + fa + fs);
        if key_spec(method, a) == k {
            assert(fa == seq![a] && fb == Seq::<Pixel>::empty());
            assert(fp + fa + fb =~= fp + fb + fa);
        } else if key_spec(method, b) == k {
            assert(fa == Seq::<Pixel>::empty() && fb == seq![b]);
            assert(fp + fa + fb =~= fp + fb + fa);
        } else {
            assert(fa == Seq::<Pixel>::empty() && fb == Seq::<Pixel>::empty());
            assert(fp + fa + fb =~= fp + fb + fa);
        }
        assert(t.filter(pred) == s.filter(pred));
    }
}

/// Filtering seen from the left: the key-`k` subsequence of a non-empty
/// sequence starts with the first pixel exactly when that pixel's key is
/// `k`, and skips it otherwise.
#[verifier::rlimit(20)]
#[verifier::spinoff_prover]
proof fn lemma_key_filtered_first(method: SortBy, k: int, s: Seq<Pixel>)
    requires
        s.len() > 0,
    ensures
        key_spec(method, s[0]) == k ==> key_filtered(method, k, s) == seq![s[0]]
            + key_filtered(method, k, s.drop_first()),
        key_spec(method, s[0]) != k ==> key_filtered(method, k, s) == key_filtered(
            method,
            k,
            s.drop_first(),
        ),
{
    let pred = |q: Pixel| key_spec(method, q) == k;
    lemma_key_filtered_singleton(method, k, s[0]);
    assert(s =~= seq![s[0]] + s.drop_first());
    Seq::<Pixel>::filter_distributes_over_add(seq![s[0]], s.drop_first(), pred);
    if key_spec(method, s[0]) != k {
        assert(Seq::<Pixel>::empty() + s.drop_first().filter(pred) =~= s.drop_first().filter(
            pred,
        ));
    }
}

/// A sequence with ascending keys is determined by its key subsequences: two
/// sorted sequences whose pixels agree key by key, in order, are equal.
#[verifier::rlimit(20)]
#[verifier::spinoff_prover]
proof fn lemma_sorted_stable_unique(method: SortBy, a: Seq<Pixel>, b: Seq<Pixel>)
    requires
        sorted_by_key(method, a),
        sorted_by_key(method, b),
        forall|k: int| key_filtered(method, k, a) == key_filtered(method, k, b),
    ensures
        a == b,
    decreases a.len(),
{
    if a.len() == 0 && b.len() == 0 {
        assert(a =~= b);
    } else if a.len() == 0 {
        let k1 = key_spec(method, b[0]);
        lemma_key_filtered_first(method, k1, b);
        assert(key_filtered(method, k1, b).len() > 0);
        assert(key_filtered(method, k1, a).len() == 0) by {
            reveal(Seq::filter);
        }
        assert(false);
    } else if b.len() == 0 {
        let k0 = key_spec(method, a[0]);
        lemma_key_filtered_first(method, k0, a);
        assert(key_filtered(method, k0, a).len() > 0);
        assert(key_filtered(method, k0, b).len() == 0) by {
            reveal(Seq::filter);
        }
        assert(false);
    } else {
        let k0 = key_spec(method, a[0]);
        let k1 = key_spec(method, b[0]);
        lemma_key_filtered_first(method, k0, a);
        lemma_key_filtered_first(method, k1, b);
        let pred0 = |q: Pixel| key_spec(method, q) == k0;
        let pred1 = |q: Pixel| key_spec(method, q) == k1;
        // b holds a pixel of key k0, so its least key k1 is at most k0.
        assert(key_filtered(method, k0, b).len() > 0);
        let x = key_filtered(method, k0, b)[0];
        Seq::lemma_filter_pred(b, pred0, 0);
        assert(key_spec(method, x) == k0);
        assert(b.filter(pred0).contains(x));
        Seq::lemma_filter_contains_rev(b, pred0, x);
        let xi = choose|xi: int| 0 <= xi < b.len() && b[xi] == x;
        assert(k1 <= k0);
        // and symmetrically a holds a pixel of key k1.
        assert(key_filtered(method, k1, a).len() > 0);
        let y = key_filtered(method, k1, a)[0];
        Seq::lemma_filter_pred(a, pred1, 0);
        assert(key_spec(method, y) == k1);
        assert(a.filter(pred1).contains(y));
        Seq::lemma_filter_contains_rev(a, pred1, y);
        let yi = choose|yi: int| 0 <= yi < a.len() && a[yi] == y;
        assert(k0 <= k1);
        assert(k0 == k1);
        // The key-k0 subsequences start with a[0] and b[0] respectively.
        assert((seq![a[0]] + key_filtered(method, k0, a.drop_first()))[0] == a[0]);
        assert((seq![b[0]] + key_filtered(method, k0, b.drop_first()))[0] == b[0]);
        assert(a[0] == b[0]);
        // The tails are again sorted with equal key subsequences.
        assert(sorted_by_key(method, a.drop_first())) by {
            assert forall|i: int, j: int|
                0 <= i < j < a.drop_first().len() implies key_spec(method, a.drop_first()[i])
                    <= key_spec(method, a.drop_first()[j]) by {
                assert(a.drop_first()[i] == a[i + 1] && a.drop_first()[j] == a[j + 1]);
            }
        }
        assert(sorted_by_key(method, b.drop_first())) by {
            assert forall|i: int, j: int|
                0 <= i < j < b.drop_first().len() implies key_spec(method, b.drop_first()[i])
                    <= key_spec(method, b.drop_first()[j]) by {
                assert(b.drop_first()[i] == b[i + 1] && b.drop_first()[j] == b[j + 1]);
            }
        }
        assert forall|k: int|
            key_filtered(method, k, a.drop_first()) == key_filtered(
                method,
                k,
                b.drop_first(),
            ) by {
            lemma_key_filtered_first(method, k, a);
            lemma_key_filtered_first(method, k, b);
            if k == k0 {
                assert((seq![a[0]] + key_filtered(method, k, a.drop_first())).drop_first()
                    =~= key_filtered(method, k, a.drop_first()));
                assert((seq![b[0]] + key_filtered(method, k, b.drop_first())).drop_first()
                    =~= key_filtered(method, k, b.drop_first()));
            }
        }
        lemma_sorted_stable_unique(method, a.drop_first(), b.drop_first());
        assert(a.drop_first() == b.drop_first());
        assert(a.len() == b.len());
        assert forall|i: int| 0 <= i < a.len() implies a[i] == b[i] by {
            if i > 0 {
                assert(a.drop_first()[i - 1] == b.drop_first()[i - 1]);
            }
        }
        assert(a =~= b);
    }
}

/// Reorder the pixels by ascending key under the metric, with a stable
/// insertion sort. The result is a permutation of the input in which pixels
/// of equal key keep their old relative order; an input whose keys already
/// ascend comes back unchanged.
fn sort_pixels(pixels: &mut Vec<Pixel>, method: &SortBy)
    ensures
        final(pixels)@.len() == old(pixels)@.len(),
        final(pixels)@.to_multiset() == old(pixels)@.to_multiset(),
        sorted_by_key(*method, final(pixels)@),
        forall|k: int|
            key_filtered(*method, k, final(pixels)@) == key_filtered(*method, k, old(pixels)@),
        sorted_by_key(*method, old(pixels)@) ==> final(pixels)@ == old(pixels)@,
{
    let n: usize = pixels.len();
    if n < 2 {
        return;
    }
    let mut i: usize = 1;
    while i < n
        invariant
            1 <= i <= n,
            n == pixels@.len(),
            n == old(pixels)@.len(),
            pixels@.to_multiset() == old(pixels)@.to_multiset(),
            forall|a: int, b: int|
                0 <= a < b < i ==> key_spec(*method, pixels@[a]) <= key_spec(
                    *method,
                    pixels@[b],
                ),
            forall|k: int|
                key_filtered(*method, k, pixels@) == key_filtered(*method, k, old(pixels)@),
            sorted_by_key(*method, old(pixels)@) ==> pixels@ == old(pixels)@,
        decreases n - i,
    {
        let mut j: usize = i;
        while j > 0 && key(method, &pixels[j - 1]) > key(method, &pixels[j])
            invariant
                0 <= j <= i < n,
                n == pixels@.len(),
                n == old(pixels)@.len(),
                pixels@.to_multiset() == old(pixels)@.to_multiset(),
                forall|a: int, b: int|
                    0 <= a < b <= i && b != j ==> key_spec(*method, pixels@[a]) <= key_spec(
                        *method,
                        pixels@[b],
                    ),
                forall|k: int|
                    key_filtered(*method, k, pixels@) == key_filtered(*method, k, old(pixels)@),
                sorted_by_key(*method, old(pixels)@) ==> (pixels@ == old(pixels)@ && j == i),
            decreases j,
        {
            let ghost before = pixels@;
            let lower = pixels[j - 1];
            let upper = pixels[j];
            pixels[j - 1] = upper;
            pixels[j] = lower;
            proof {
                assert(pixels@ == before.update(j - 1, upper).update(j as int, lower));
                assert(pixels@.to_multiset() =~= before.to_multiset());
                lemma_key_filtered_swap(*method, before, j as int);
                assert forall|k: int|
                    key_filtered(*method, k, pixels@) == key_filtered(
                        *method,
                        k,
                        old(pixels)@,
                    ) by {
                    assert(key_filtered(
                        *method,
                        k,
                        before.update(j - 1, upper).update(j as int, lower),
                    ) == key_filtered(*method, k, before));
                    assert(key_filtered(*method, k, before) == key_filtered(
                        *method,
                        k,
                        old(pixels)@,
                    ));
                }
            }
            j = j - 1;
        }
        i = i + 1;
    }
}

/// The index `i` lies inside one of the first `t` intervals.
spec fn covered_upto(intervals: Seq<(usize, usize)>, t: int, i: int) -> bool {
    exists|j: int| 0 <= j < t && (#[trigger] intervals[j]).0 <= i < intervals[j].1
}

/// How a row looks after run sorting, relative to the row before. Over the
/// inclusion bitmap of the row before the call: every out-of-range pixel is
/// unchanged, inclusion is preserved position by position, and each maximal
/// in-range run holds the same pixels as before, reordered to ascending key
/// with pixels of equal key kept in their old relative order — the stable
/// sort, which pins the output down to one arrangement; a run whose keys
/// already ascend is left unchanged.
pub open spec fn row_sorted_rel(
    method: SortBy,
    low: u16,
    high: u16,
    before: Seq<Pixel>,
    after: Seq<Pixel>,
) -> bool {
    let bm = range_bitmap(method, low, high, before);
    &&& after.len() == before.len()
    &&& (forall|i: int|
        0 <= i < before.len() && !in_range(method, low, high, before[i]) ==> after[i]
            == before[i])
    &&& (forall|i: int|
        0 <= i < before.len() ==> (in_range(method, low, high, #[trigger] after[i])
            <==> in_range(method, low, high, before[i])))
    &&& (forall|iv: (usize, usize)|
        #[trigger] is_run(bm, iv) ==> {
            &&& after.subrange(iv.0 as int, iv.1 as int).to_multiset() == before.subrange(
                iv.0 as int,
                iv.1 as int,
            ).to_multiset()
            &&& sorted_by_key(method, after.subrange(iv.0 as int, iv.1 as int))
            &&& (forall|k: int|
                key_filtered(method, k, after.subrange(iv.0 as int, iv.1 as int))
                    == key_filtered(method, k, before.subrange(iv.0 as int, iv.1 as int)))
            &&& (sorted_by_key(method, before.subrange(iv.0 as int, iv.1 as int))
                ==> after.subrange(iv.0 as int, iv.1 as int) == before.subrange(
                iv.0 as int,
                iv.1 as int,
            ))
        })
}

/// Sort one row in place: group the pixels whose key lies in the inclusive
/// threshold range into maximal contiguous runs and reorder each run by
/// ascending key; every pixel outside the range keeps its value and position.
pub fn sort_row(row: &mut Vec<Pixel>, method: &SortBy, lower_threshold: u16, higher_threshold: u16)
    requires
        lower_threshold <= higher_threshold,
        higher_threshold <= upper_boundary_spec(*method),
    ensures
        row_sorted_rel(*method, lower_threshold, higher_threshold, old(row)@, final(row)@),
{
    let ghost bm = range_bitmap(*method, lower_threshold, higher_threshold, old(row)@);
    let n: usize = row.len();

    let mut bitmap: Vec<bool> = Vec::with_capacity(n);
    for xi in 0..n
        invariant
            n == row@.len(),
            row@ == old(row)@,
            bitmap@.len() == xi,
            forall|k: int|
                0 <= k < xi ==> bitmap@[k] == in_range(
                    *method,
                    lower_threshold,
                    higher_threshold,
                    row@[k],
                ),
    {
        let k = key(method, &row[xi]);
        bitmap.push(lower_threshold <= k && k <= higher_threshold);
    }
    proof {
        assert(bitmap@ =~= bm);
    }

    let intervals = into_intervals(bitmap);
    let ghost ivs = intervals@;
    let m: usize = intervals.len();

    let mut t: usize = 0;
    while t < m
        invariant
            t <= m,
            n == row@.len(),
            n == old(row)@.len(),
            m == ivs.len(),
            ivs == intervals@,
            bm == range_bitmap(*method, lower_threshold, higher_threshold, old(row)@),
            runs_of(bm, ivs),
            forall|i: int| #![trigger covered_upto(ivs, t as int, i)]
                0 <= i < n && !covered_upto(ivs, t as int, i) ==> row@[i] == old(row)@[i],
            forall|j: int|
                0 <= j < t ==> row@.subrange(
                    (#[trigger] ivs[j]).0 as int,
                    ivs[j].1 as int,
                ).to_multiset() == old(row)@.subrange(ivs[j].0 as int, ivs[j].1 as int).to_multiset(),
            forall|j: int|
                0 <= j < t ==> sorted_by_key(
                    *method,
                    row@.subrange((#[trigger] ivs[j]).0 as int, ivs[j].1 as int),
                ),
            forall|j: int|
                0 <= j < t ==> (forall|k: int|
                    key_filtered(
                        *method,
                        k,
                        row@.subrange((#[trigger] ivs[j]).0 as int, ivs[j].1 as int),
                    ) == key_filtered(
                        *method,
                        k,
                        old(row)@.subrange(ivs[j].0 as int, ivs[j].1 as int),
                    )),
            forall|j: int|
                0 <= j < t ==> (sorted_by_key(
                    *method,
                    old(row)@.subrange((#[trigger] ivs[j]).0 as int, ivs[j].1 as int),
                ) ==> row@.subrange(ivs[j].0 as int, ivs[j].1 as int) == old(row)@.subrange(
                    ivs[j].0 as int,
                    ivs[j].1 as int,
                )),
        decreases m - t,
    {
        let (start, end) = intervals[t];
        let ghost row_t = row@;
        proof {
            assert(is_run(bm, ivs[t as int]));
            assert(ivs[t as int] == (start, end));
            assert(bm.len() == n);
            assert(end <= n);
            assert forall|i: int| start <= i < end implies row_t[i] == old(row)@[i] by {
                if covered_upto(ivs, t as int, i) {
                    let j = choose|j: int|
                        0 <= j < t && (#[trigger] ivs[j]).0 <= i < ivs[j].1;
                    lemma_runs_ordered(bm, ivs, j, t as int);
                    assert(false);
                }
                assert(0 <= i < n && !covered_upto(ivs, t as int, i));
                assert(row@[i] == old(row)@[i]);
                assert(row_t[i] == row@[i]);
            }
            assert(row_t.subrange(start as int, end as int) =~= old(row)@.subrange(
                start as int,
                end as int,
            ));
        }

        let mut pixels: Vec<Pixel> = Vec::with_capacity(end - start);
        for xi in start..end
            invariant
                n == row@.len(),
                row@ == row_t,
                start < end <= n,
                pixels@.len() == xi - start,
                forall|k: int| 0 <= k < xi - start ==> pixels@[k] == row@[start + k],
        {
            pixels.push(row[xi]);
        }
        let ghost extracted = pixels@;
        proof {
            assert(extracted =~= row_t.subrange(start as int, end as int));
        }

        sort_pixels(&mut pixels, method);

        let len: usize = pixels.len();
        for idx in 0..len
            invariant
                n == row@.len(),
                start < end <= n,
                len == end - start,
                len == pixels@.len(),
                forall|k: int| 0 <= k < idx ==> row@[start + k] == pixels@[k],
                forall|i: int|
                    0 <= i < n && !(start <= i < start + idx) ==> row@[i] == row_t[i],
        {
            row[start + idx] = pixels[idx];
        }

        proof {
            assert(row@.subrange(start as int, end as int) =~= pixels@);
            // Earlier intervals lie wholly left of this one, so their
            // subranges were untouched by the write-back above.
            assert forall|j: int| 0 <= j < t implies row@.subrange(
                (#[trigger] ivs[j]).0 as int,
                ivs[j].1 as int,
            ) == row_t.subrange(ivs[j].0 as int, ivs[j].1 as int) by {
                lemma_runs_ordered(bm, ivs, j, t as int);
                assert(is_run(bm, ivs[j]));
                let s = ivs[j].0 as int;
                let e = ivs[j].1 as int;
                assert forall|k: int| 0 <= k < e - s implies #[trigger] row@[s + k] == row_t[s
                    + k] by {
                    assert(!(start <= s + k < end));
                }
                assert(row@.subrange(s, e) =~= row_t.subrange(s, e));
            }
            assert forall|j: int| 0 <= j < t + 1 implies {
                &&& row@.subrange(
                    (#[trigger] ivs[j]).0 as int,
                    ivs[j].1 as int,
                ).to_multiset() == old(row)@.subrange(
                    ivs[j].0 as int,
                    ivs[j].1 as int,
                ).to_multiset()
                &&& sorted_by_key(*method, row@.subrange(ivs[j].0 as int, ivs[j].1 as int))
                &&& (forall|k: int|
                    key_filtered(*method, k, row@.subrange(ivs[j].0 as int, ivs[j].1 as int))
                        == key_filtered(
                        *method,
                        k,
                        old(row)@.subrange(ivs[j].0 as int, ivs[j].1 as int),
                    ))
                &&& (sorted_by_key(
                    *method,
                    old(row)@.subrange(ivs[j].0 as int, ivs[j].1 as int),
                ) ==> row@.subrange(ivs[j].0 as int, ivs[j].1 as int) == old(row)@.subrange(
                    ivs[j].0 as int,
                    ivs[j].1 as int,
                ))
            } by {
                let s_ = ivs[j].0 as int;
                let e_ = ivs[j].1 as int;
                if j < t {
                    assert(row@.subrange(s_, e_) == row_t.subrange(s_, e_));
                    assert forall|k: int|
                        key_filtered(*method, k, row@.subrange(s_, e_)) == key_filtered(
                            *method,
                            k,
                            old(row)@.subrange(s_, e_),
                        ) by {
                        assert(key_filtered(*method, k, row_t.subrange(s_, e_))
                            == key_filtered(*method, k, old(row)@.subrange(s_, e_)));
                    }
                } else {
                    assert(ivs[j] == (start, end));
                    assert(row@.subrange(start as int, end as int) == pixels@);
                    assert(extracted == old(row)@.subrange(start as int, end as int));
                    assert forall|k: int|
                        key_filtered(*method, k, row@.subrange(s_, e_)) == key_filtered(
                            *method,
                            k,
                            old(row)@.subrange(s_, e_),
                        ) by {
                        assert(key_filtered(*method, k, pixels@) == key_filtered(
                            *method,
                            k,
                            extracted,
                        ));
                    }
                    if sorted_by_key(
                        *method,
                        old(row)@.subrange(start as int, end as int),
                    ) {
                        assert(pixels@ == extracted);
                    }
                }
            }
            assert forall|i: int|
                0 <= i < n && !covered_upto(ivs, t + 1, i) implies row@[i] == old(
                row,
            )@[i] by {
                if covered_upto(ivs, t as int, i) {
                    let j = choose|j: int|
                        0 <= j < t && (#[trigger] ivs[j]).0 <= i < ivs[j].1;
                    assert(covered_upto(ivs, t + 1, i));
                    assert(false);
                }
                if start <= i < end {
                    assert(ivs[t as int].0 <= i < ivs[t as int].1);
                    assert(covered_upto(ivs, t + 1, i));
                    assert(false);
                }
                assert(row@[i] == row_t[i]);
            }
        }
        t = t + 1;
    }

    proof {
        assert forall|i: int|
            0 <= i < n && !in_range(
                *method,
                lower_threshold,
                higher_threshold,
                old(row)@[i],
            ) implies row@[i] == old(row)@[i] by {
            if covered_upto(ivs, m as int, i) {
                let j = choose|j: int| 0 <= j < m && (#[trigger] ivs[j]).0 <= i < ivs[j].1;
                assert(is_run(bm, ivs[j]));
                assert(bm[i]);
                assert(in_range(*method, lower_threshold, higher_threshold, old(row)@[i]));
                assert(false);
            }
            assert(0 <= i < n && !covered_upto(ivs, m as int, i));
        }
        assert forall|i: int| 0 <= i < n implies (in_range(
            *method,
            lower_threshold,
            higher_threshold,
            #[trigger] row@[i],
        ) <==> in_range(*method, lower_threshold, higher_threshold, old(row)@[i])) by {
            if in_range(*method, lower_threshold, higher_threshold, old(row)@[i]) {
                assert(bm[i]);
                assert(covered(ivs, i));
                let j = choose|j: int|
                    0 <= j < ivs.len() && (#[trigger] ivs[j]).0 <= i < ivs[j].1;
                assert(is_run(bm, ivs[j]));
                let s = ivs[j].0 as int;
                let e = ivs[j].1 as int;
                let after_sub = row@.subrange(s, e);
                let before_sub = old(row)@.subrange(s, e);
                assert(after_sub.to_multiset() == before_sub.to_multiset());
                let x = row@[i];
                assert(after_sub[i - s] == x);
                assert(after_sub.contains(x));
                assert(after_sub.to_multiset().count(x) > 0);
                assert(before_sub.to_multiset().count(x) > 0);
                assert(before_sub.contains(x));
                let k = choose|k: int| 0 <= k < before_sub.len() && before_sub[k] == x;
                assert(bm[s + k]);
                assert(in_range(*method, lower_threshold, higher_threshold, old(row)@[s + k]));
                assert(old(row)@[s + k] == x);
            } else {
                assert(!covered_upto(ivs, m as int, i)) by {
                    if covered_upto(ivs, m as int, i) {
                        let j = choose|j: int|
                            0 <= j < m && (#[trigger] ivs[j]).0 <= i < ivs[j].1;
                        assert(is_run(bm, ivs[j]));
                        assert(bm[i]);
                        assert(false);
                    }
                }
                assert(row@[i] == old(row)@[i]);
            }
        }
        assert forall|iv: (usize, usize)| #[trigger] is_run(bm, iv) implies {
            &&& row@.subrange(iv.0 as int, iv.1 as int).to_multiset() == old(row)@.subrange(
                iv.0 as int,
                iv.1 as int,
            ).to_multiset()
            &&& sorted_by_key(*method, row@.subrange(iv.0 as int, iv.1 as int))
            &&& (forall|k: int|
                key_filtered(*method, k, row@.subrange(iv.0 as int, iv.1 as int))
                    == key_filtered(*method, k, old(row)@.subrange(iv.0 as int, iv.1 as int)))
            &&& (sorted_by_key(*method, old(row)@.subrange(iv.0 as int, iv.1 as int))
                ==> row@.subrange(iv.0 as int, iv.1 as int) == old(row)@.subrange(
                iv.0 as int,
                iv.1 as int,
            ))
        } by {
            assert(bm[iv.0 as int]);
            assert(covered(ivs, iv.0 as int));
            let j = choose|j: int|
                0 <= j < ivs.len() && (#[trigger] ivs[j]).0 <= (iv.0 as int) && (iv.0 as int)
                    < ivs[j].1;
            assert(is_run(bm, ivs[j]));
            lemma_run_unique(bm, iv, ivs[j], iv.0 as int);
            assert forall|k: int|
                key_filtered(*method, k, row@.subrange(iv.0 as int, iv.1 as int))
                    == key_filtered(
                    *method,
                    k,
                    old(row)@.subrange(iv.0 as int, iv.1 as int),
                ) by {
                assert(key_filtered(*method, k, row@.subrange(ivs[j].0 as int, ivs[j].1 as int))
                    == key_filtered(
                    *method,
                    k,
                    old(row)@.subrange(ivs[j].0 as int, ivs[j].1 as int),
                ));
            }
        }
    }
}

/// Sort every row of the image independently: the grid keeps its dimensions,
/// and each output row stands in the row-sorting relation to its own input
/// row alone, so sorting one row never changes a pixel of another row.
pub fn sort_image(
    rows: &mut Vec<Vec<Pixel>>,
    method: &SortBy,
    lower_threshold: u16,
    higher_threshold: u16,
)
    requires
        lower_threshold <= higher_threshold,
        higher_threshold <= upper_boundary_spec(*method),
    ensures
        final(rows)@.len() == old(rows)@.len(),
        forall|y: int|
            0 <= y < old(rows)@.len() ==> row_sorted_rel(
                *method,
                lower_threshold,
                higher_threshold,
                (#[trigger] old(rows)@[y])@,
                final(rows)@[y]@,
            ),
{
    let ghost rows0 = rows@;
    let height: usize = rows.len();
    let mut y: usize = 0;
    while y < height
        invariant
            y <= height,
            lower_threshold <= higher_threshold,
            higher_threshold <= upper_boundary_spec(*method),
            height == rows@.len(),
            height == rows0.len(),
            rows0 == old(rows)@,
            forall|yy: int|
                0 <= yy < y ==> row_sorted_rel(
                    *method,
                    lower_threshold,
                    higher_threshold,
                    (#[trigger] rows0[yy])@,
                    rows@[yy]@,
                ),
            forall|yy: int| y <= yy < height ==> rows@[yy] == (#[trigger] rows0[yy]),
        decreases height - y,
    {
        let ghost rows_prev = rows@;
        let mut row: Vec<Pixel> = rows.remove(y);
        sort_row(&mut row, method, lower_threshold, higher_threshold);
        rows.insert(y, row);
        proof {
            assert(rows@ =~= rows_prev.update(y as int, row));
        }
        y = y + 1;
    }
}

/// Sorting a row is idempotent: a second pass with the same metric and
/// threshold range leaves the once-sorted row unchanged, because the runs of
/// the sorted row are the runs of the row it came from, and their keys already
/// ascend.
pub proof fn lemma_sort_row_idempotent(
    method: SortBy,
    low: u16,
    high: u16,
    r0: Seq<Pixel>,
    r1: Seq<Pixel>,
    r2: Seq<Pixel>,
)
    requires
        r0.len() <= usize::MAX,
        row_sorted_rel(method, low, high, r0, r1),
        row_sorted_rel(method, low, high, r1, r2),
    ensures
        r2 == r1,
{
    let bm0 = range_bitmap(method, low, high, r0);
    let bm1 = range_bitmap(method, low, high, r1);
    assert(bm1 =~= bm0);
    assert forall|i: int| 0 <= i < r1.len() implies r2[i] == r1[i] by {
        if in_range(method, low, high, r1[i]) {
            assert(bm1[i]);
            lemma_run_around(bm1, i);
            let rs = crate::runs::run_start(bm1, i);
            let re = crate::runs::run_end(bm1, i);
            let iv = ((rs as usize), (re as usize));
            assert(is_run(bm1, iv));
            assert(is_run(bm0, iv));
            let s = iv.0 as int;
            let e = iv.1 as int;
            assert(s == rs && e == re);
            assert(s <= i < e);
            assert(sorted_by_key(method, r1.subrange(s, e)));
            assert(r2.subrange(s, e) == r1.subrange(s, e));
            assert(r2.subrange(s, e)[i - s] == r2[i]);
            assert(r1.subrange(s, e)[i - s] == r1[i]);
        } else {
            assert(r2[i] == r1[i]);
        }
    }
    assert(r2 =~= r1);
}

/// Sorting a row is deterministic: the row-sorting relation admits exactly
/// one result for a given row, metric and threshold range, so the output is
/// a pure function of those inputs with no hidden state — ascending keys
/// plus the kept per-key order leave only one arrangement per run.
#[verifier::rlimit(20)]
#[verifier::spinoff_prover]
pub proof fn lemma_sort_row_deterministic(
    method: SortBy,
    low: u16,
    high: u16,
    r0: Seq<Pixel>,
    r1: Seq<Pixel>,
    r2: Seq<Pixel>,
)
    requires
        r0.len() <= usize::MAX,
        row_sorted_rel(method, low, high, r0, r1),
        row_sorted_rel(method, low, high, r0, r2),
    ensures
        r1 == r2,
{
    let bm = range_bitmap(method, low, high, r0);
    assert forall|i: int| 0 <= i < r0.len() implies r1[i] == r2[i] by {
        if in_range(method, low, high, r0[i]) {
            assert(bm[i]);
            lemma_run_around(bm, i);
            let rs = crate::runs::run_start(bm, i);
            let re = crate::runs::run_end(bm, i);
            let iv = ((rs as usize), (re as usize));
            assert(is_run(bm, iv));
            let s = iv.0 as int;
            let e = iv.1 as int;
            assert(s == rs && e == re);
            assert(s <= i < e);
            assert forall|k: int|
                key_filtered(method, k, r1.subrange(s, e)) == key_filtered(
                    method,
                    k,
                    r2.subrange(s, e),
                ) by {
                assert(key_filtered(method, k, r1.subrange(s, e)) == key_filtered(
                    method,
                    k,
                    r0.subrange(s, e),
                ));
                assert(key_filtered(method, k, r2.subrange(s, e)) == key_filtered(
                    method,
                    k,
                    r0.subrange(s, e),
                ));
            }
            lemma_sorted_stable_unique(method, r1.subrange(s, e), r2.subrange(s, e));
            assert(r1.subrange(s, e)[i - s] == r1[i]);
            assert(r2.subrange(s, e)[i - s] == r2[i]);
        } else {
            assert(r1[i] == r0[i] && r2[i] == r0[i]);
        }
    }
    assert(r1 =~= r2);
}

/// An inverted threshold range selects nothing: when low > high no key can
/// lie in [low, high], so the row-sorting relation under such a range admits
/// only the unchanged row. Enforcing low <= high therefore belongs to the
/// boundary that builds the thresholds, not to the sorter, which owes no
/// work on an empty selection.
#[verifier::rlimit(20)]
pub proof fn lemma_inverted_range_selects_nothing(
    method: SortBy,
    low: u16,
    high: u16,
    before: Seq<Pixel>,
    after: Seq<Pixel>,
)
    requires
        low > high,
        row_sorted_rel(method, low, high, before, after),
    ensures
        after == before,
{
    assert forall|i: int| 0 <= i < before.len() implies after[i] == before[i] by {
        assert(!in_range(method, low, high, before[i]));
    }
    assert(after =~= before);
}

} // verus!
