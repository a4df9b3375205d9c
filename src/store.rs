use vstd::prelude::*;

use crate::calendar::{BatchWindow, Date};
use crate::calendar::{lemma_bucket_monotone, Resolution};
use crate::rollup::{
    all_weighted, has_date, has_source, is_rollup, joined, points_wf, reduce, sums_fit, weights_wf, Point,
    ReduceError, WeightPoint, WeightedPoint,
};
use crate::value::Decimal;

verus! {

/// What a series says: the value of each bucket it holds.
pub open spec fn series_map(s: Seq<Point>) -> Map<Date, Decimal>
    decreases s.len(),
{
    if s.len() == 0 {
        Map::empty()
    } else {
        series_map(s.drop_last()).insert(s.last().date, s.last().value)
    }
}

/// All points of `s` lie on or after `from`.
pub open spec fn all_from(s: Seq<Point>, from: Date) -> bool {
    forall|i: int| 0 <= i < s.len() ==> from.day_number() <= (#[trigger] s[i]).date.day_number()
}

/// `new` agrees with `old` on every bucket before `from`.
pub open spec fn same_before(old: Map<Date, Decimal>, new: Map<Date, Decimal>, from: Date) -> bool {
    forall|d: Date|
        d.wf() && d.day_number() < from.day_number() ==> (#[trigger] new.contains_key(d)
            == old.contains_key(d)) && (old.contains_key(d) ==> new[d] == old[d])
}

proof fn lemma_series_map_keys(s: Seq<Point>, d: Date)
    ensures
        series_map(s).contains_key(d) <==> exists|k: int| 0 <= k < s.len() && (#[trigger] s[k]).date == d,
    decreases s.len(),
{
    if s.len() > 0 {
        lemma_series_map_keys(s.drop_last(), d);
        if series_map(s.drop_last()).contains_key(d) {
            let k = choose|k: int| 0 <= k < s.drop_last().len() && (#[trigger] s.drop_last()[k]).date == d;
            assert(s[k] == s.drop_last()[k]);
        }
        if exists|k: int| 0 <= k < s.len() && (#[trigger] s[k]).date == d {
            let k = choose|k: int| 0 <= k < s.len() && (#[trigger] s[k]).date == d;
            if k < s.len() - 1 {
                assert(s.drop_last()[k] == s[k]);
            }
        }
    }
}

proof fn lemma_take_push(s: Seq<Point>, i: int)
    requires
        0 <= i < s.len(),
    ensures
        series_map(s.take(i + 1)) == series_map(s.take(i)).insert(s[i].date, s[i].value),
{
    assert(s.take(i + 1).drop_last() =~= s.take(i));
}

/// Inserts `fresh` into `old` by bucket: a bucket of `fresh` replaces the one of `old`.
pub fn upsert(old: &Vec<Point>, fresh: &Vec<Point>) -> (r: Vec<Point>)
    requires
        points_wf(old@),
        points_wf(fresh@),
    ensures
        points_wf(r@),
        series_map(r@) == series_map(old@).union_prefer_right(series_map(fresh@)),
{
    let mut out: Vec<Point> = Vec::new();
    let mut i: usize = 0;
    let mut j: usize = 0;
    let ghost a = old@;
    let ghost f = fresh@;
    while i < old.len() || j < fresh.len()
        invariant
            a == old@,
            f == fresh@,
            points_wf(a),
            points_wf(f),
            i <= a.len(),
            j <= f.len(),
            points_wf(out@),
            series_map(out@) == series_map(a.take(i as int)).union_prefer_right(
                series_map(f.take(j as int)),
            ),
            forall|k: int|
                0 <= k < out.len() && i < a.len() ==> (#[trigger] out@[k]).date.day_number()
                    < a[i as int].date.day_number(),
            forall|k: int|
                0 <= k < out.len() && j < f.len() ==> (#[trigger] out@[k]).date.day_number()
                    < f[j as int].date.day_number(),
            forall|m: int|
                0 <= m < j && i < a.len() ==> (#[trigger] f[m]).date.day_number()
                    < a[i as int].date.day_number(),
            forall|m: int|
                0 <= m < i && j < f.len() ==> (#[trigger] a[m]).date.day_number()
                    < f[j as int].date.day_number(),
        decreases a.len() + f.len() - i - j,
    {
        let ghost before = out@;
        let take_old: bool;
        let take_fresh: bool;
        if i < old.len() && j < fresh.len() {
            let da = old[i].date.ordinal();
            let df = fresh[j].date.ordinal();
            take_old = da <= df;
            take_fresh = df <= da;
        } else {
            take_old = i < old.len();
            take_fresh = j < fresh.len();
        }
        let p = if take_fresh {
            fresh[j]
        } else {
            old[i]
        };
        proof {
            if take_old && take_fresh {
                crate::calendar::lemma_day_number_injective(a[i as int].date, f[j as int].date);
            }
            assert forall|k: int| 0 <= k < before.len() implies (#[trigger] before[k]).date.day_number()
                < p.date.day_number() by {}
        }
        out.push(p);
        proof {
            assert forall|x: int, y: int|
                0 <= x < y < out.len() implies (#[trigger] out@[x]).date.day_number() < (
                #[trigger] out@[y]).date.day_number() by {
                assert(out@[x] == before[x]);
                if y < before.len() {
                    assert(out@[y] == before[y]);
                }
            }
            assert forall|k: int| 0 <= k < out.len() implies (#[trigger] out@[k]).date.wf() by {
                if k < before.len() {
                    assert(out@[k] == before[k]);
                }
            }
            assert(series_map(out@) == series_map(before).insert(p.date, p.value)) by {
                assert(out@.drop_last() =~= before);
            }
            if take_old {
                lemma_take_push(a, i as int);
            }
            if take_fresh {
                lemma_take_push(f, j as int);
            }
            if take_old && !take_fresh {
                lemma_series_map_keys(f.take(j as int), p.date);
                assert(!series_map(f.take(j as int)).contains_key(p.date)) by {
                    if series_map(f.take(j as int)).contains_key(p.date) {
                        let m = choose|m: int|
                            0 <= m < f.take(j as int).len() && (#[trigger] f.take(j as int)[m]).date
                                == p.date;
                        assert(f[m] == f.take(j as int)[m]);
                    }
                }
            }
            assert(series_map(out@) =~= series_map(
                a.take(if take_old { i + 1 } else { i as int }),
            ).union_prefer_right(series_map(f.take(if take_fresh { j + 1 } else { j as int }))));
        }
        if take_old {
            i = i + 1;
        }
        if take_fresh {
            j = j + 1;
        }
        proof {
            assert forall|k: int|
                0 <= k < out.len() && i < a.len() implies (#[trigger] out@[k]).date.day_number()
                    < a[i as int].date.day_number() by {
                if k < before.len() {
                    assert(out@[k] == before[k]);
                }
            }
            assert forall|k: int|
                0 <= k < out.len() && j < f.len() implies (#[trigger] out@[k]).date.day_number()
                    < f[j as int].date.day_number() by {
                if k < before.len() {
                    assert(out@[k] == before[k]);
                }
            }
            assert forall|m: int|
                0 <= m < j && i < a.len() implies (#[trigger] f[m]).date.day_number()
                    < a[i as int].date.day_number() by {
                if take_old && i >= 1 {
                    assert(a[i - 1].date.day_number() < a[i as int].date.day_number());
                }
            }
            assert forall|m: int|
                0 <= m < i && j < f.len() implies (#[trigger] a[m]).date.day_number()
                    < f[j as int].date.day_number() by {
                if take_fresh && j >= 1 {
                    assert(f[j - 1].date.day_number() < f[j as int].date.day_number());
                }
            }
        }
    }
    proof {
        assert(a.take(a.len() as int) =~= a);
        assert(f.take(f.len() as int) =~= f);
    }
    out
}

/// Why the source of record gave no points.
#[derive(Clone, Copy, Debug, PartialEq, Eq, Structural)]
pub enum SourceError {
    /// The source could not be reached; worth retrying.
    Unavailable,
    /// The source answered with rows of an unexpected shape.
    Malformed,
}

/// Why an update cycle of a chart failed.
#[derive(Clone, Copy, Debug, PartialEq, Eq, Structural)]
pub enum UpdateError {
    SourceUnavailable,
    SourceDataError,
    Reduction(ReduceError),
}

pub open spec fn update_error_of(e: SourceError) -> UpdateError {
    match e {
        SourceError::Unavailable => UpdateError::SourceUnavailable,
        SourceError::Malformed => UpdateError::SourceDataError,
    }
}

/// Whether `s` can be stored for a window starting at `from`.
pub open spec fn fits_window(s: Seq<Point>, from: Date) -> bool {
    points_wf(s) && all_from(s, from)
}

/// Whether point `p` lies between `from` and `to`, both included.
pub open spec fn in_range(p: Point, from: Date, to: Date) -> bool {
    from.day_number() <= p.date.day_number() <= to.day_number()
}

/// Checks that `pts` is a valid series whose points all lie on or after `from`.
pub fn check_window(pts: &Vec<Point>, from: &Date) -> (r: bool)
    requires
        from.wf(),
    ensures
        r == fits_window(pts@, *from),
{
    let start = from.ordinal();
    let mut i: usize = 0;
    let mut last: u64 = 0;
    while i < pts.len()
        invariant
            from.wf(),
            start == from.day_number(),
            0 <= i <= pts.len(),
            points_wf(pts@.take(i as int)),
            all_from(pts@.take(i as int), *from),
            i > 0 ==> last == pts@[i - 1].date.day_number(),
        decreases pts.len() - i,
    {
        let d = pts[i].date;
        if !d.is_valid() {
            assert(!points_wf(pts@));
            return false;
        }
        let n = d.ordinal();
        if n < start {
            assert(!all_from(pts@, *from));
            return false;
        }
        if i > 0 && n <= last {
            assert(!points_wf(pts@)) by {
                assert(pts@[i - 1].date.day_number() >= pts@[i as int].date.day_number());
            }
            return false;
        }
        proof {
            let t = pts@.take(i as int + 1);
            assert forall|a: int, b: int| 0 <= a < b < t.len() implies (#[trigger] t[a]).date.day_number()
                < (#[trigger] t[b]).date.day_number() by {
                assert(t[a] == pts@[a]);
                assert(t[b] == pts@[b]);
                if b == i && a < i - 1 {
                    assert(pts@.take(i as int)[a] == pts@[a]);
                    assert(pts@.take(i as int)[i - 1] == pts@[i - 1]);
                }
                if b < i {
                    assert(pts@.take(i as int)[a] == pts@[a]);
                    assert(pts@.take(i as int)[b] == pts@[b]);
                }
            }
            assert forall|k: int| 0 <= k < t.len() implies (#[trigger] t[k]).date.wf() by {
                if k < i {
                    assert(pts@.take(i as int)[k] == pts@[k]);
                }
            }
            assert forall|k: int| 0 <= k < t.len() implies from.day_number() <= (
            #[trigger] t[k]).date.day_number() by {
                if k < i {
                    assert(pts@.take(i as int)[k] == pts@[k]);
                }
            }
        }
        last = n;
        i = i + 1;
    }
    proof {
        assert(pts@.take(pts.len() as int) =~= pts@);
    }
    true
}

/// The persisted points of one chart.
pub struct LocalChartStore {
    points: Vec<Point>,
}

impl LocalChartStore {
    pub closed spec fn series(&self) -> Seq<Point> {
        self.points@
    }

    pub open spec fn wf(&self) -> bool {
        points_wf(self.series())
    }

    /// The stored value of each bucket.
    pub open spec fn model(&self) -> Map<Date, Decimal> {
        series_map(self.series())
    }

    pub fn new() -> (r: LocalChartStore)
        ensures
            r.wf(),
            r.series().len() == 0,
    {
        LocalChartStore { points: Vec::new() }
    }

    pub fn points(&self) -> (r: &Vec<Point>)
        ensures
            r@ == self.series(),
    {
        &self.points
    }

    /// The stored points between `from` and `to`, both included, in order.
    pub fn get(&self, from: &Date, to: &Date) -> (r: Vec<Point>)
        requires
            from.wf(),
            to.wf(),
            self.wf(),
        ensures
            r@ == self.series().filter(|p: Point| in_range(p, *from, *to)),
    {
        let lo = from.ordinal();
        let hi = to.ordinal();
        let mut out: Vec<Point> = Vec::new();
        let mut i: usize = 0;
        proof {
            reveal(Seq::filter);
        }
        while i < self.points.len()
            invariant
                self.wf(),
                from.wf(),
                to.wf(),
                lo == from.day_number(),
                hi == to.day_number(),
                0 <= i <= self.points.len(),
                out@ == self.points@.take(i as int).filter(|p: Point| in_range(p, *from, *to)),
            decreases self.points.len() - i,
        {
            let p = self.points[i];
            proof {
                assert(self.points@[i as int].date.wf());
            }
            let n = p.date.ordinal();
            proof {
                reveal(Seq::filter);
                assert(self.points@.take(i as int + 1).drop_last() =~= self.points@.take(i as int));
                assert(self.points@.take(i as int + 1).last() == p);
            }
            if lo <= n && n <= hi {
                out.push(p);
            }
            i = i + 1;
        }
        proof {
            assert(self.points@.take(self.points.len() as int) =~= self.points@);
        }
        out
    }

    /// Ends an update cycle whose window starts at `from`, with what the source returned:
    /// a failure leaves the store as it was; valid points replace their buckets.
    pub fn apply(&mut self, from: &Date, fetched: Result<Vec<Point>, SourceError>) -> (r: Result<
        (),
        UpdateError,
    >)
        requires
            old(self).wf(),
            from.wf(),
        ensures
            final(self).wf(),
            match fetched {
                Err(e) => r == Err::<(), UpdateError>(update_error_of(e)) && final(self).series()
                    == old(self).series(),
                Ok(pts) => if fits_window(pts@, *from) {
                    r is Ok && final(self).model() == old(self).model().union_prefer_right(
                        series_map(pts@),
                    ) && same_before(old(self).model(), final(self).model(), *from)
                } else {
                    r == Err::<(), UpdateError>(UpdateError::SourceDataError) && final(self).series()
                        == old(self).series()
                },
            },
    {
        match fetched {
            Err(SourceError::Unavailable) => Err(UpdateError::SourceUnavailable),
            Err(SourceError::Malformed) => Err(UpdateError::SourceDataError),
            Ok(pts) => {
                if !check_window(&pts, from) {
                    return Err(UpdateError::SourceDataError);
                }
                let merged = upsert(&self.points, &pts);
                proof {
                    law_window_bound(series_map(self.points@), pts@, *from);
                }
                self.points = merged;
                Ok(())
            },
        }
    }
}

/// Storing the same points a second time changes nothing more.
pub proof fn law_reapply_idempotent(stored: Map<Date, Decimal>, fresh: Seq<Point>)
    ensures
        stored.union_prefer_right(series_map(fresh)).union_prefer_right(series_map(fresh))
            == stored.union_prefer_right(series_map(fresh)),
{
    assert(stored.union_prefer_right(series_map(fresh)).union_prefer_right(series_map(fresh))
        =~= stored.union_prefer_right(series_map(fresh)));
}

/// Storing points of a window leaves every bucket before the window as it was.
pub proof fn law_window_bound(stored: Map<Date, Decimal>, fresh: Seq<Point>, from: Date)
    requires
        all_from(fresh, from),
    ensures
        same_before(stored, stored.union_prefer_right(series_map(fresh)), from),
{
    assert forall|d: Date| d.wf() && d.day_number() < from.day_number() implies !series_map(
        fresh,
    ).contains_key(d) by {
        lemma_series_map_keys(fresh, d);
        if series_map(fresh).contains_key(d) {
            let k = choose|k: int| 0 <= k < fresh.len() && (#[trigger] fresh[k]).date == d;
        }
    }
}

/// The points of series `s` from `from` on.
pub open spec fn points_from(s: Seq<Point>, from: Date) -> Seq<Point>
    decreases s.len(),
{
    if s.len() == 0 || from.day_number() <= s[0].date.day_number() {
        s
    } else {
        points_from(s.skip(1), from)
    }
}

/// Copies the points of `pts` from `from` on.
pub fn slice_from(pts: &Vec<Point>, from: &Date) -> (r: Vec<Point>)
    requires
        points_wf(pts@),
        from.wf(),
    ensures
        r@ == points_from(pts@, *from),
        points_wf(r@),
        all_from(r@, *from),
{
    let start = from.ordinal();
    let mut k: usize = 0;
    proof {
        assert(pts@.skip(0) =~= pts@);
    }
    while k < pts.len() && pts[k].date.ordinal() < start
        invariant
            points_wf(pts@),
            from.wf(),
            start == from.day_number(),
            0 <= k <= pts.len(),
            points_from(pts@, *from) == points_from(pts@.skip(k as int), *from),
        decreases pts.len() - k,
    {
        proof {
            assert(pts@.skip(k as int).skip(1) =~= pts@.skip(k as int + 1));
            assert(pts@.skip(k as int)[0] == pts@[k as int]);
        }
        k = k + 1;
    }
    proof {
        if k < pts.len() {
            assert(pts@.skip(k as int)[0] == pts@[k as int]);
        }
    }
    let mut out: Vec<Point> = Vec::new();
    let mut j: usize = k;
    while j < pts.len()
        invariant
            k <= j <= pts.len(),
            out@ == pts@.subrange(k as int, j as int),
        decreases pts.len() - j,
    {
        out.push(pts[j]);
        proof {
            assert(out@ =~= pts@.subrange(k as int, j as int + 1));
        }
        j = j + 1;
    }
    proof {
        assert(out@ =~= pts@.skip(k as int));
        assert forall|i: int| 0 <= i < out.len() implies from.day_number() <= (
        #[trigger] out@[i]).date.day_number() by {
            assert(out@[i] == pts@[k + i]);
            if i > 0 {
                assert(pts@[k as int].date.day_number() < pts@[k + i].date.day_number());
            }
        }
        assert forall|a: int, b: int| 0 <= a < b < out.len() implies (#[trigger] out@[a]).date.day_number()
            < (#[trigger] out@[b]).date.day_number() by {
            assert(out@[a] == pts@[k + a]);
            assert(out@[b] == pts@[k + b]);
        }
        assert forall|a: int| 0 <= a < out.len() implies (#[trigger] out@[a]).date.wf() by {
            assert(out@[a] == pts@[k + a]);
        }
    }
    out
}

impl LocalChartStore {
    /// One update cycle of a chart derived from a finer one: the window's part of the fine
    /// series is rolled up with its weights and stored; a failure leaves the store as it was.
    pub fn update_derived(
        &mut self,
        window: &BatchWindow,
        now: &Date,
        fine: &Vec<Point>,
        ws: &Vec<WeightPoint>,
    ) -> (r: Result<(), UpdateError>)
        requires
            old(self).wf(),
            now.wf(),
            points_wf(fine@),
            weights_wf(ws@),
        ensures
            final(self).wf(),
            same_before(old(self).model(), final(self).model(), window.start_for(*now)),
            ({
                let part = points_from(fine@, window.start_for(*now));
                let j = joined(part, ws@);
                match r {
                    Ok(_) => all_weighted(part, ws@) && sums_fit(j, window.resolution) && exists|
                        out: Seq<Point>,
                    |
                        is_rollup(window.resolution, j, out) && final(self).model() == old(
                            self,
                        ).model().union_prefer_right(series_map(out)),
                    Err(UpdateError::Reduction(ReduceError::MissingWeight)) => final(self).series()
                        == old(self).series() && !all_weighted(part, ws@),
                    Err(UpdateError::Reduction(ReduceError::Overflow)) => final(self).series()
                        == old(self).series() && all_weighted(part, ws@) && !sums_fit(
                        j,
                        window.resolution,
                    ),
                    Err(_) => false,
                }
            }),
    {
        let from = window.window_start(now);
        let part = slice_from(fine, &from);
        match reduce(window.resolution, &part, ws) {
            Ok(out) => {
                proof {
                    lemma_rollup_in_window(window.resolution, joined(part@, ws@), out@, from);
                    law_window_bound(series_map(self.points@), out@, from);
                }
                let merged = upsert(&self.points, &out);
                self.points = merged;
                Ok(())
            },
            Err(e) => Err(UpdateError::Reduction(e)),
        }
    }
}

/// Rolling up points that lie on or after a bucket start gives points on or after it.
proof fn lemma_rollup_in_window(res: Resolution, s: Seq<WeightedPoint>, out: Seq<Point>, from: Date)
    requires
        from.wf(),
        res.bucket(from) == from,
        is_rollup(res, s, out),
        forall|j: int| 0 <= j < s.len() ==> (#[trigger] s[j]).date.wf() && from.day_number() <= s[j].date.day_number(),
    ensures
        all_from(out, from),
{
    assert forall|k: int| 0 <= k < out.len() implies from.day_number() <= (#[trigger] out[k]).date.day_number() by {
        assert(has_source(res, s, s.len() as int, out[k].date));
        let j = choose|j: int| 0 <= j < s.len() && res.bucket((#[trigger] s[j]).date) == out[k].date;
        lemma_bucket_monotone(res, from, s[j].date);
    }
}

proof fn lemma_series_map_value(s: Seq<Point>, k: int)
    requires
        points_wf(s),
        0 <= k < s.len(),
    ensures
        series_map(s).contains_key(s[k].date),
        series_map(s)[s[k].date] == s[k].value,
    decreases s.len(),
{
    let t = s.drop_last();
    if k < s.len() - 1 {
        assert(s[k].date.day_number() < s[s.len() - 1].date.day_number());
        assert(t[k] == s[k]);
        assert forall|a: int, b: int| 0 <= a < b < t.len() implies (#[trigger] t[a]).date.day_number()
            < (#[trigger] t[b]).date.day_number() by {
            assert(t[a] == s[a] && t[b] == s[b]);
        }
        assert forall|a: int| 0 <= a < t.len() implies (#[trigger] t[a]).date.wf() by {
            assert(t[a] == s[a]);
        }
        lemma_series_map_value(t, k);
    }
}

/// A roll-up is determined by its input: any two hold the same value for the same buckets.
pub proof fn law_rollup_unique(res: Resolution, s: Seq<WeightedPoint>, o1: Seq<Point>, o2: Seq<Point>)
    requires
        is_rollup(res, s, o1),
        is_rollup(res, s, o2),
    ensures
        series_map(o1) == series_map(o2),
{
    let m1 = series_map(o1);
    let m2 = series_map(o2);
    assert forall|d: Date| #[trigger] m1.dom().contains(d) == m2.dom().contains(d) && (m1.dom().contains(d)
        ==> m1[d] == m2[d]) by {
        lemma_series_map_keys(o1, d);
        lemma_series_map_keys(o2, d);
        if m1.dom().contains(d) {
            let k1 = choose|k: int| 0 <= k < o1.len() && (#[trigger] o1[k]).date == d;
            assert(has_source(res, s, s.len() as int, o1[k1].date));
            let j = choose|j: int| 0 <= j < s.len() && res.bucket((#[trigger] s[j]).date) == d;
            assert(has_date(o2, res.bucket(s[j].date)));
            let k2 = choose|k: int| 0 <= k < o2.len() && (#[trigger] o2[k]).date == d;
            lemma_series_map_value(o1, k1);
            lemma_series_map_value(o2, k2);
        }
        if m2.dom().contains(d) {
            let k2 = choose|k: int| 0 <= k < o2.len() && (#[trigger] o2[k]).date == d;
            assert(has_source(res, s, s.len() as int, o2[k2].date));
            let j = choose|j: int| 0 <= j < s.len() && res.bucket((#[trigger] s[j]).date) == d;
            assert(has_date(o1, res.bucket(s[j].date)));
        }
    }
    assert(m1.dom() =~= m2.dom());
    assert(m1 =~= m2);
}

/// Updating a derived chart a second time from the same fine series and weights stores the
/// same values as updating it once.
pub proof fn law_derived_update_idempotent(
    stored: Map<Date, Decimal>,
    res: Resolution,
    s: Seq<WeightedPoint>,
    first: Seq<Point>,
    second: Seq<Point>,
)
    requires
        is_rollup(res, s, first),
        is_rollup(res, s, second),
    ensures
        stored.union_prefer_right(series_map(first)).union_prefer_right(series_map(second))
            == stored.union_prefer_right(series_map(first)),
{
    law_rollup_unique(res, s, first, second);
    law_reapply_idempotent(stored, first);
}

} // verus!
