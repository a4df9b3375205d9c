use vstd::prelude::*;

use crate::calendar::{lemma_bucket, lemma_bucket_monotone, lemma_bucket_strict, Date, Resolution};
use crate::value::Decimal;

verus! {

/// A chart point: the start of its bucket and its value.
#[derive(Clone, Copy, Debug, PartialEq, Eq, Structural)]
pub struct Point {
    pub date: Date,
    pub value: Decimal,
}

/// A point of a weight series: how many raw events fell into the bucket.
#[derive(Clone, Copy, Debug, PartialEq, Eq, Structural)]
pub struct WeightPoint {
    pub date: Date,
    pub weight: u64,
}

/// A fine point together with its weight.
#[derive(Clone, Copy, Debug, PartialEq, Eq, Structural)]
pub struct WeightedPoint {
    pub date: Date,
    pub value: Decimal,
    pub weight: u64,
}

#[derive(Clone, Copy, Debug, PartialEq, Eq, Structural)]
pub enum ReduceError {
    /// A fine point has no point of the weight series for its bucket.
    MissingWeight,
    /// A weighted sum does not fit the value range.
    Overflow,
}

/// Valid dates, strictly ascending: at most one point per bucket.
pub open spec fn points_wf(s: Seq<Point>) -> bool {
    (forall|i: int| 0 <= i < s.len() ==> (#[trigger] s[i]).date.wf()) && forall|i: int, j: int|
        0 <= i < j < s.len() ==> (#[trigger] s[i]).date.day_number() < (
        #[trigger] s[j]).date.day_number()
}

pub open spec fn weights_wf(s: Seq<WeightPoint>) -> bool {
    (forall|i: int| 0 <= i < s.len() ==> (#[trigger] s[i]).date.wf()) && forall|i: int, j: int|
        0 <= i < j < s.len() ==> (#[trigger] s[i]).date.day_number() < (
        #[trigger] s[j]).date.day_number()
}

pub open spec fn weighted_wf(s: Seq<WeightedPoint>) -> bool {
    (forall|i: int| 0 <= i < s.len() ==> (#[trigger] s[i]).date.wf()) && forall|i: int, j: int|
        0 <= i < j < s.len() ==> (#[trigger] s[i]).date.day_number() < (
        #[trigger] s[j]).date.day_number()
}

pub open spec fn product(p: WeightedPoint) -> int {
    p.value.units as int * p.weight as int
}

/// Sum of value times weight over the points of `s` that fall into bucket `b`.
pub open spec fn group_sum(s: Seq<WeightedPoint>, res: Resolution, b: Date) -> int
    decreases s.len(),
{
    if s.len() == 0 {
        0
    } else {
        group_sum(s.drop_last(), res, b) + if res.bucket(s.last().date) == b {
            product(s.last())
        } else {
            0
        }
    }
}

/// Sum of the weights of the points of `s` that fall into bucket `b`.
pub open spec fn group_weight(s: Seq<WeightedPoint>, res: Resolution, b: Date) -> int
    decreases s.len(),
{
    if s.len() == 0 {
        0
    } else {
        group_weight(s.drop_last(), res, b) + if res.bucket(s.last().date) == b {
            s.last().weight as int
        } else {
            0
        }
    }
}

/// `s / w` rounded to the nearest integer, halves away from zero; zero when `w` is zero.
pub open spec fn round_div(s: int, w: int) -> int {
    if w <= 0 {
        0
    } else if s >= 0 {
        if (s % w) * 2 >= w {
            s / w + 1
        } else {
            s / w
        }
    } else {
        let t = -s;
        -(if (t % w) * 2 >= w {
            t / w + 1
        } else {
            t / w
        })
    }
}

pub open spec fn fits_i128(x: int) -> bool {
    i128::MIN <= x <= i128::MAX
}

/// The weighted sum of the bucket of point `j`, over the points up to and including `j`.
pub open spec fn running_sum(s: Seq<WeightedPoint>, res: Resolution, j: int) -> int {
    group_sum(s.take(j + 1), res, res.bucket(s[j].date))
}

/// Every product and every running weighted sum fits the value range.
pub open spec fn sums_fit(s: Seq<WeightedPoint>, res: Resolution) -> bool {
    forall|j: int|
        0 <= j < s.len() ==> fits_i128(product(#[trigger] s[j])) && fits_i128(
            running_sum(s, res, j),
        )
}

/// Every point of `s` before index `i` has its bucket in `out`.
pub open spec fn covers(res: Resolution, s: Seq<WeightedPoint>, out: Seq<Point>, i: int) -> bool {
    forall|j: int| 0 <= j < i ==> has_date(out, res.bucket((#[trigger] s[j]).date))
}

/// `out` holds one point per coarse bucket that some point of `s` falls into, in order,
/// each valued at the weighted average of that bucket's points.
pub open spec fn is_rollup(res: Resolution, s: Seq<WeightedPoint>, out: Seq<Point>) -> bool {
    &&& points_wf(out)
    &&& sources_before(res, s, out, s.len() as int)
    &&& covers(res, s, out, s.len() as int)
    &&& values_exact(res, s, out)
}

proof fn lemma_take_step(s: Seq<WeightedPoint>, res: Resolution, b: Date, i: int)
    requires
        0 <= i < s.len(),
    ensures
        group_sum(s.take(i + 1), res, b) == group_sum(s.take(i), res, b) + if res.bucket(
            s[i].date,
        ) == b {
            product(s[i])
        } else {
            0
        },
        group_weight(s.take(i + 1), res, b) == group_weight(s.take(i), res, b) + if res.bucket(
            s[i].date,
        ) == b {
            s[i].weight as int
        } else {
            0
        },
{
    assert(s.take(i + 1).drop_last() =~= s.take(i));
    assert(s.take(i + 1).last() == s[i]);
}

/// Points after index `i` outside bucket `b` do not change its sums.
proof fn lemma_suffix_outside(s: Seq<WeightedPoint>, res: Resolution, b: Date, i: int)
    requires
        0 <= i <= s.len(),
        forall|j: int| i <= j < s.len() ==> res.bucket((#[trigger] s[j]).date) != b,
    ensures
        group_sum(s, res, b) == group_sum(s.take(i), res, b),
        group_weight(s, res, b) == group_weight(s.take(i), res, b),
    decreases s.len(),
{
    if s.len() == i {
        assert(s.take(i) =~= s);
    } else {
        let t = s.drop_last();
        assert(res.bucket(s[s.len() - 1].date) != b);
        assert forall|j: int| i <= j < t.len() implies res.bucket((#[trigger] t[j]).date) != b by {
            assert(t[j] == s[j]);
        }
        lemma_suffix_outside(t, res, b, i);
        assert(t.take(i) =~= s.take(i));
    }
}

proof fn lemma_weight_bound(s: Seq<WeightedPoint>, res: Resolution, b: Date)
    ensures
        0 <= group_weight(s, res, b) <= s.len() * 0xFFFF_FFFF_FFFF_FFFF,
    decreases s.len(),
{
    if s.len() > 0 {
        lemma_weight_bound(s.drop_last(), res, b);
        assert((s.len() - 1) * 0xFFFF_FFFF_FFFF_FFFF + 0xFFFF_FFFF_FFFF_FFFF == s.len()
            * 0xFFFF_FFFF_FFFF_FFFF) by (nonlinear_arith);
    }
}

/// Value times weight, divided by the total weight and rounded; zero for zero weight.
pub fn weighted_average(sum: i128, total: u128) -> (r: i128)
    ensures
        r == round_div(sum as int, total as int),
{
    if total == 0 {
        return 0;
    }
    let magnitude: u128 = if sum >= 0 {
        sum as u128
    } else {
        (-(sum + 1)) as u128 + 1
    };
    let q: u128 = magnitude / total;
    let rem: u128 = magnitude % total;
    let rounded: u128 = if rem >= total - rem {
        proof {
            assert(q <= magnitude / 2) by {
                vstd::arithmetic::div_mod::lemma_div_is_ordered_by_denominator(
                    magnitude as int,
                    2,
                    total as int,
                );
            }
            assert(magnitude / 2 <= 0x8000_0000_0000_0000_0000_0000_0000_0000u128 / 2);
        }
        q + 1
    } else {
        q
    };
    proof {
        assert(q <= magnitude) by {
            vstd::arithmetic::div_mod::lemma_div_is_ordered_by_denominator(
                magnitude as int,
                1,
                total as int,
            );
        }
        if total == 1 {
            assert(rem == 0);
        }
    }
    if sum >= 0 {
        rounded as i128
    } else if rounded == 0 {
        0
    } else {
        -((rounded - 1) as i128) - 1
    }
}

/// Some point of `s` before index `i` falls into bucket `d`.
pub open spec fn has_source(res: Resolution, s: Seq<WeightedPoint>, i: int, d: Date) -> bool {
    exists|j: int| 0 <= j < i && res.bucket((#[trigger] s[j]).date) == d
}

/// Some point of `out` is dated `d`.
pub open spec fn has_date(out: Seq<Point>, d: Date) -> bool {
    exists|k: int| 0 <= k < out.len() && (#[trigger] out[k]).date == d
}

pub open spec fn sources_before(res: Resolution, s: Seq<WeightedPoint>, out: Seq<Point>, i: int) -> bool {
    forall|k: int| 0 <= k < out.len() ==> has_source(res, s, i, (#[trigger] out[k]).date)
}

pub open spec fn covered_before(
    res: Resolution,
    s: Seq<WeightedPoint>,
    out: Seq<Point>,
    cur: Date,
    i: int,
) -> bool {
    forall|j: int|
        0 <= j < i ==> res.bucket((#[trigger] s[j]).date) == cur || has_date(out, res.bucket(s[j].date))
}

pub open spec fn values_exact(res: Resolution, s: Seq<WeightedPoint>, out: Seq<Point>) -> bool {
    forall|k: int|
        #![trigger out[k]]
        0 <= k < out.len() ==> out[k].value.units == round_div(
            group_sum(s, res, out[k].date),
            group_weight(s, res, out[k].date),
        )
}

/// What the points before index `i` have produced: `out` holds the finished buckets, and
/// `cur` is the bucket still being summed.
#[verifier::opaque]
spec fn progress(res: Resolution, s: Seq<WeightedPoint>, out: Seq<Point>, cur: Date, i: int) -> bool {
    &&& points_wf(out)
    &&& forall|k: int| 0 <= k < out.len() ==> (#[trigger] out[k]).date.day_number() < cur.day_number()
    &&& sources_before(res, s, out, i)
    &&& covered_before(res, s, out, cur, i)
    &&& values_exact(res, s, out)
}

proof fn lemma_push_sorted(out: Seq<Point>, p: Point)
    requires
        points_wf(out),
        p.date.wf(),
        forall|k: int| 0 <= k < out.len() ==> (#[trigger] out[k]).date.day_number() < p.date.day_number(),
    ensures
        points_wf(out.push(p)),
{
    let o = out.push(p);
    assert forall|a: int, b: int|
        0 <= a < b < o.len() implies (#[trigger] o[a]).date.day_number() < (
        #[trigger] o[b]).date.day_number() by {
        assert(o[a] == out[a]);
        if b < out.len() {
            assert(o[b] == out[b]);
        }
    }
    assert forall|k: int| 0 <= k < o.len() implies (#[trigger] o[k]).date.wf() by {
        if k < out.len() {
            assert(o[k] == out[k]);
        }
    }
}

proof fn lemma_push_sources(res: Resolution, s: Seq<WeightedPoint>, out: Seq<Point>, p: Point, i: int, i2: int)
    requires
        1 <= i <= i2 <= s.len(),
        p.date == res.bucket(s[i - 1].date),
        sources_before(res, s, out, i),
    ensures
        sources_before(res, s, out.push(p), i2),
{
    let o = out.push(p);
    assert forall|k: int| 0 <= k < o.len() implies has_source(res, s, i2, (#[trigger] o[k]).date) by {
        if k < out.len() {
            assert(o[k] == out[k]);
            assert(has_source(res, s, i, out[k].date));
            let j = choose|j: int| 0 <= j < i && res.bucket((#[trigger] s[j]).date) == out[k].date;
            assert(0 <= j < i2 && res.bucket(s[j].date) == o[k].date);
        } else {
            assert(0 <= i - 1 < i2 && res.bucket(s[i - 1].date) == o[k].date);
        }
    }
}

proof fn lemma_push_covers(
    res: Resolution,
    s: Seq<WeightedPoint>,
    out: Seq<Point>,
    p: Point,
    i: int,
)
    requires
        0 <= i <= s.len(),
        covered_before(res, s, out, p.date, i),
    ensures
        covers(res, s, out.push(p), i),
{
    let o = out.push(p);
    assert forall|j: int| 0 <= j < i implies has_date(o, res.bucket((#[trigger] s[j]).date)) by {
        if res.bucket(s[j].date) == p.date {
            let k = out.len() as int;
            assert(0 <= k < o.len() && o[k].date == res.bucket(s[j].date));
        } else {
            assert(has_date(out, res.bucket(s[j].date)));
            let k = choose|k: int| 0 <= k < out.len() && (#[trigger] out[k]).date == res.bucket(s[j].date);
            assert(o[k] == out[k]);
            assert(0 <= k < o.len() && o[k].date == res.bucket(s[j].date));
        }
    }
}

proof fn lemma_push_values(res: Resolution, s: Seq<WeightedPoint>, out: Seq<Point>, p: Point)
    requires
        values_exact(res, s, out),
        p.value.units == round_div(group_sum(s, res, p.date), group_weight(s, res, p.date)),
    ensures
        values_exact(res, s, out.push(p)),
{
    let o = out.push(p);
    assert forall|k: int| #![trigger o[k]] 0 <= k < o.len() implies o[k].value.units == round_div(
        group_sum(s, res, o[k].date),
        group_weight(s, res, o[k].date),
    ) by {
        if k < out.len() {
            assert(o[k] == out[k]);
        }
    }
}

proof fn lemma_progress_same(res: Resolution, s: Seq<WeightedPoint>, out: Seq<Point>, cur: Date, i: int)
    requires
        0 <= i < s.len(),
        progress(res, s, out, cur, i),
        res.bucket(s[i].date) == cur,
    ensures
        progress(res, s, out, cur, i + 1),
{
    reveal(progress);
    assert forall|k: int| 0 <= k < out.len() implies has_source(res, s, i + 1, (#[trigger] out[k]).date) by {
        assert(has_source(res, s, i, out[k].date));
        let j = choose|j: int| 0 <= j < i && res.bucket((#[trigger] s[j]).date) == out[k].date;
        assert(0 <= j < i + 1 && res.bucket(s[j].date) == out[k].date);
    }
}

#[verifier::rlimit(40)]
proof fn lemma_flush(
    res: Resolution,
    s: Seq<WeightedPoint>,
    out: Seq<Point>,
    cur: Date,
    i: int,
    p: Point,
)
    requires
        weighted_wf(s),
        1 <= i <= s.len(),
        cur.wf(),
        cur == res.bucket(s[i - 1].date),
        progress(res, s, out, cur, i),
        p.date == cur,
        p.value.units == round_div(group_sum(s, res, cur), group_weight(s, res, cur)),
        i < s.len() ==> res.bucket(s[i].date) != cur,
    ensures
        i < s.len() ==> progress(res, s, out.push(p), res.bucket(s[i].date), i + 1),
        i == s.len() ==> is_rollup(res, s, out.push(p)),
{
    reveal(progress);
    let o = out.push(p);
    lemma_push_sorted(out, p);
    lemma_push_values(res, s, out, p);
    lemma_push_covers(res, s, out, p, i);
    if i < s.len() {
        lemma_push_sources(res, s, out, p, i, i + 1);
        let b = res.bucket(s[i].date);
        lemma_bucket(res, s[i].date);
        lemma_bucket_strict(res, s[i - 1].date, s[i].date);
        assert forall|k: int| 0 <= k < o.len() implies (#[trigger] o[k]).date.day_number()
            < b.day_number() by {
            if k < out.len() {
                assert(o[k] == out[k]);
            }
        }
    } else {
        lemma_push_sources(res, s, out, p, i, i);
    }
}

/// When point `i` opens a new bucket, the sums of the bucket before it are complete, and
/// the new bucket has no earlier points.
proof fn lemma_new_bucket(res: Resolution, s: Seq<WeightedPoint>, cur: Date, i: int)
    requires
        weighted_wf(s),
        1 <= i < s.len(),
        cur == res.bucket(s[i - 1].date),
        res.bucket(s[i].date) != cur,
        forall|j: int|
            0 <= j < i ==> res.bucket((#[trigger] s[j]).date) == cur || res.bucket(
                s[j].date,
            ).day_number() < cur.day_number(),
    ensures
        group_sum(s, res, cur) == group_sum(s.take(i), res, cur),
        group_weight(s, res, cur) == group_weight(s.take(i), res, cur),
        group_sum(s.take(i), res, res.bucket(s[i].date)) == 0,
        group_weight(s.take(i), res, res.bucket(s[i].date)) == 0,
        cur.day_number() < res.bucket(s[i].date).day_number(),
{
    let b = res.bucket(s[i].date);
    lemma_bucket_strict(res, s[i - 1].date, s[i].date);
    assert forall|j: int| i <= j < s.len() implies res.bucket((#[trigger] s[j]).date) != cur by {
        if j > i {
            assert(s[i].date.day_number() < s[j].date.day_number());
        }
        lemma_bucket_monotone(res, s[i].date, s[j].date);
    }
    lemma_suffix_outside(s, res, cur, i);
    let t = s.take(i);
    assert forall|j: int| 0 <= j < t.len() implies res.bucket((#[trigger] t[j]).date) != b by {
        assert(t[j] == s[j]);
    }
    lemma_group_absent(t, res, b);
}

/// Derives the coarse series from weighted fine points, by weighted average per coarse bucket.
pub fn rollup(res: Resolution, pts: &Vec<WeightedPoint>) -> (r: Result<Vec<Point>, ReduceError>)
    requires
        weighted_wf(pts@),
    ensures
        r is Ok <==> sums_fit(pts@, res),
        r is Ok ==> is_rollup(res, pts@, r->Ok_0@),
        r is Err ==> r->Err_0 == ReduceError::Overflow,
{
    let n = pts.len();
    let mut out: Vec<Point> = Vec::new();
    if n == 0 {
        return Ok(out);
    }
    let p0 = pts[0];
    let mut cur: Date = res.bucket_start(&p0.date);
    proof {
        lemma_take_step(pts@, res, cur, 0);
        assert(pts@.take(0).len() == 0);
    }
    let mut sum: i128 = match p0.value.units.checked_mul(p0.weight as i128) {
        Some(x) => x,
        None => {
            assert(!fits_i128(product(pts@[0])));
            return Err(ReduceError::Overflow);
        },
    };
    let mut total: u128 = p0.weight as u128;
    proof {
        assert(running_sum(pts@, res, 0) == sum);
        reveal(progress);
    }
    let mut i: usize = 1;
    while i < n
        invariant
            weighted_wf(pts@),
            n == pts.len(),
            1 <= i <= n,
            cur.wf(),
            cur == res.bucket(pts@[i - 1].date),
            sum as int == group_sum(pts@.take(i as int), res, cur),
            total as int == group_weight(pts@.take(i as int), res, cur),
            forall|j: int|
                0 <= j < i ==> res.bucket((#[trigger] pts@[j]).date) == cur || res.bucket(
                    pts@[j].date,
                ).day_number() < cur.day_number(),
            progress(res, pts@, out@, cur, i as int),
            forall|j: int|
                0 <= j < i ==> fits_i128(product(#[trigger] pts@[j])) && fits_i128(
                    running_sum(pts@, res, j),
                ),
        decreases n - i,
    {
        let p = pts[i];
        let b = res.bucket_start(&p.date);
        proof {
            lemma_bucket(res, pts@[i - 1].date);
            lemma_bucket(res, p.date);
            lemma_take_step(pts@, res, b, i as int);
            lemma_take_step(pts@, res, cur, i as int);
            lemma_weight_bound(pts@.take(i as int), res, cur);
        }
        let prod: i128 = match p.value.units.checked_mul(p.weight as i128) {
            Some(x) => x,
            None => {
                assert(!fits_i128(product(pts@[i as int])));
                return Err(ReduceError::Overflow);
            },
        };
        if b == cur {
            sum = match sum.checked_add(prod) {
                Some(x) => x,
                None => {
                    assert(!fits_i128(running_sum(pts@, res, i as int)));
                    return Err(ReduceError::Overflow);
                },
            };
            total = total + p.weight as u128;
            proof {
                lemma_progress_same(res, pts@, out@, cur, i as int);
            }
        } else {
            proof {
                lemma_new_bucket(res, pts@, cur, i as int);
            }
            let avg = weighted_average(sum, total);
            let pt = Point { date: cur, value: Decimal { units: avg } };
            proof {
                lemma_flush(res, pts@, out@, cur, i as int, pt);
            }
            out.push(pt);
            proof {
                assert forall|j: int| 0 <= j < i + 1 implies res.bucket((#[trigger] pts@[j]).date)
                    == b || res.bucket(pts@[j].date).day_number() < b.day_number() by {}
            }
            cur = b;
            sum = prod;
            total = p.weight as u128;
        }
        proof {
            assert(running_sum(pts@, res, i as int) == sum);
        }
        i = i + 1;
    }
    proof {
        assert(pts@.take(n as int) =~= pts@);
    }
    let avg = weighted_average(sum, total);
    let pt = Point { date: cur, value: Decimal { units: avg } };
    proof {
        lemma_flush(res, pts@, out@, cur, n as int, pt);
    }
    out.push(pt);
    Ok(out)
}

/// A bucket that no point of `s` falls into has zero sums.
proof fn lemma_group_absent(s: Seq<WeightedPoint>, res: Resolution, b: Date)
    requires
        forall|j: int| 0 <= j < s.len() ==> res.bucket((#[trigger] s[j]).date) != b,
    ensures
        group_sum(s, res, b) == 0,
        group_weight(s, res, b) == 0,
    decreases s.len(),
{
    if s.len() > 0 {
        let t = s.drop_last();
        assert(res.bucket(s[s.len() - 1].date) != b);
        assert forall|j: int| 0 <= j < t.len() implies res.bucket((#[trigger] t[j]).date) != b by {
            assert(t[j] == s[j]);
        }
        lemma_group_absent(t, res, b);
    }
}

/// The weight series has a point dated `d`.
pub open spec fn has_weight(ws: Seq<WeightPoint>, d: Date) -> bool {
    exists|k: int| 0 <= k < ws.len() && (#[trigger] ws[k]).date == d
}

/// The weight of the point dated `d`, where there is one.
pub open spec fn weight_at(ws: Seq<WeightPoint>, d: Date) -> u64 {
    ws[choose|k: int| 0 <= k < ws.len() && (#[trigger] ws[k]).date == d].weight
}

pub open spec fn all_weighted(fine: Seq<Point>, ws: Seq<WeightPoint>) -> bool {
    forall|i: int| 0 <= i < fine.len() ==> has_weight(ws, (#[trigger] fine[i]).date)
}

/// Each fine point with the weight of its bucket.
pub open spec fn joined(fine: Seq<Point>, ws: Seq<WeightPoint>) -> Seq<WeightedPoint> {
    Seq::new(
        fine.len(),
        |i: int| WeightedPoint { date: fine[i].date, value: fine[i].value, weight: weight_at(ws, fine[i].date) },
    )
}

/// Pairs each fine point with the weight series' point of the same bucket.
pub fn attach_weights(fine: &Vec<Point>, ws: &Vec<WeightPoint>) -> (r: Result<Vec<WeightedPoint>, ReduceError>)
    requires
        weights_wf(ws@),
    ensures
        r is Ok <==> all_weighted(fine@, ws@),
        r is Ok ==> r->Ok_0@ == joined(fine@, ws@),
        r is Err ==> r->Err_0 == ReduceError::MissingWeight,
{
    let mut out: Vec<WeightedPoint> = Vec::new();
    let mut i: usize = 0;
    while i < fine.len()
        invariant
            weights_wf(ws@),
            0 <= i <= fine.len(),
            out@ == joined(fine@, ws@).take(i as int),
            forall|j: int| 0 <= j < i ==> has_weight(ws@, (#[trigger] fine@[j]).date),
        decreases fine.len() - i,
    {
        let p = fine[i];
        let mut k: usize = 0;
        let mut found = false;
        while k < ws.len() && !found
            invariant
                0 <= k <= ws.len(),
                found ==> k < ws.len() && ws@[k as int].date == p.date,
                forall|m: int| 0 <= m < k ==> (#[trigger] ws@[m]).date != p.date,
            decreases ws.len() - k + if found { 0int } else { 1int },
        {
            if ws[k].date == p.date {
                found = true;
            } else {
                k = k + 1;
            }
        }
        if !found {
            assert(!all_weighted(fine@, ws@)) by {
                assert(fine@[i as int] == p);
                assert(!has_weight(ws@, fine@[i as int].date));
            }
            return Err(ReduceError::MissingWeight);
        }
        proof {
            let c = choose|m: int| 0 <= m < ws@.len() && (#[trigger] ws@[m]).date == p.date;
            if c != k {
                if c < k {
                    assert(ws@[c].date.day_number() < ws@[k as int].date.day_number());
                } else {
                    assert(ws@[k as int].date.day_number() < ws@[c].date.day_number());
                }
            }
            assert(weight_at(ws@, p.date) == ws@[k as int].weight);
        }
        out.push(WeightedPoint { date: p.date, value: p.value, weight: ws[k].weight });
        proof {
            assert(out@ =~= joined(fine@, ws@).take(i as int + 1));
        }
        i = i + 1;
    }
    proof {
        assert(out@ =~= joined(fine@, ws@));
    }
    Ok(out)
}

/// Derives the coarse series at resolution `res` from a fine series and its weight series.
pub fn reduce(res: Resolution, fine: &Vec<Point>, ws: &Vec<WeightPoint>) -> (r: Result<Vec<Point>, ReduceError>)
    requires
        points_wf(fine@),
        weights_wf(ws@),
    ensures
        match r {
            Ok(out) => all_weighted(fine@, ws@) && sums_fit(joined(fine@, ws@), res) && is_rollup(
                res,
                joined(fine@, ws@),
                out@,
            ),
            Err(ReduceError::MissingWeight) => !all_weighted(fine@, ws@),
            Err(ReduceError::Overflow) => all_weighted(fine@, ws@) && !sums_fit(joined(fine@, ws@), res),
        },
{
    let pts = attach_weights(fine, ws)?;
    proof {
        let j = joined(fine@, ws@);
        assert(forall|i: int| 0 <= i < j.len() ==> (#[trigger] j[i]).date == fine@[i].date);
    }
    rollup(res, &pts)
}

/// Sum of value times weight over all points of `s`.
pub open spec fn sum_products(s: Seq<WeightedPoint>) -> int
    decreases s.len(),
{
    if s.len() == 0 {
        0
    } else {
        sum_products(s.drop_last()) + product(s.last())
    }
}

/// Sum of the weights of all points of `s`.
pub open spec fn sum_weights(s: Seq<WeightedPoint>) -> int
    decreases s.len(),
{
    if s.len() == 0 {
        0
    } else {
        sum_weights(s.drop_last()) + s.last().weight
    }
}

proof fn lemma_whole_group(s: Seq<WeightedPoint>, res: Resolution, b: Date)
    requires
        forall|j: int| 0 <= j < s.len() ==> res.bucket((#[trigger] s[j]).date) == b,
    ensures
        group_sum(s, res, b) == sum_products(s),
        group_weight(s, res, b) == sum_weights(s),
    decreases s.len(),
{
    if s.len() > 0 {
        let t = s.drop_last();
        assert(res.bucket(s[s.len() - 1].date) == b);
        assert forall|j: int| 0 <= j < t.len() implies res.bucket((#[trigger] t[j]).date) == b by {
            assert(t[j] == s[j]);
        }
        lemma_whole_group(t, res, b);
    }
}

/// Fine points that all fall into one coarse bucket roll up into exactly one point: that
/// bucket, valued at the sum of value times weight divided by the sum of weights, or zero
/// when the weights sum to zero.
pub proof fn law_rollup_one_bucket(res: Resolution, s: Seq<WeightedPoint>, out: Seq<Point>, b: Date)
    requires
        s.len() > 0,
        forall|j: int| 0 <= j < s.len() ==> res.bucket((#[trigger] s[j]).date) == b,
        is_rollup(res, s, out),
    ensures
        out.len() == 1,
        out[0].date == b,
        out[0].value.units == round_div(sum_products(s), sum_weights(s)),
        sum_weights(s) == 0 ==> out[0].value.units == 0,
{
    lemma_whole_group(s, res, b);
    assert(has_date(out, res.bucket(s[0].date)));
    assert forall|k: int| 0 <= k < out.len() implies (#[trigger] out[k]).date == b by {
        assert(has_source(res, s, s.len() as int, out[k].date));
    }
    if out.len() > 1 {
        assert(out[0].date.day_number() < out[1].date.day_number());
    }
}

/// No fine points, no coarse points.
pub proof fn law_rollup_empty(res: Resolution, out: Seq<Point>)
    requires
        is_rollup(res, Seq::<WeightedPoint>::empty(), out),
    ensures
        out.len() == 0,
{
    if out.len() > 0 {
        assert(has_source(res, Seq::<WeightedPoint>::empty(), 0, out[0].date));
    }
}

/// A coarse bucket that no fine point falls into gets no point; one whose fine points all
/// weigh zero gets the value zero.
pub proof fn law_rollup_sparse(res: Resolution, s: Seq<WeightedPoint>, out: Seq<Point>, k: int)
    requires
        is_rollup(res, s, out),
    ensures
        forall|d: Date| has_date(out, d) ==> has_source(res, s, s.len() as int, d),
        0 <= k < out.len() && group_weight(s, res, out[k].date) == 0 ==> out[k].value.units == 0,
{
    assert forall|d: Date| has_date(out, d) implies has_source(res, s, s.len() as int, d) by {
        let k2 = choose|k2: int| 0 <= k2 < out.len() && (#[trigger] out[k2]).date == d;
    }
}

} // verus!
