use vstd::prelude::*;

verus! {

pub const MAX_YEAR: u32 = 9999;

/// A proleptic Gregorian calendar date.
#[derive(Clone, Copy, Debug, PartialEq, Eq, Structural)]
pub struct Date {
    pub year: u32,
    pub month: u32,
    pub day: u32,
}

pub open spec fn is_leap(y: int) -> bool {
    (y % 4 == 0 && y % 100 != 0) || y % 400 == 0
}

pub open spec fn days_in_month(y: int, m: int) -> int {
    if m == 2 {
        if is_leap(y) { 29 } else { 28 }
    } else if m == 4 || m == 6 || m == 9 || m == 11 {
        30
    } else {
        31
    }
}

pub open spec fn days_before_month(y: int, m: int) -> int {
    let leap_day: int = if is_leap(y) && m > 2 { 1 } else { 0 };
    let base: int = if m <= 1 {
        0
    } else if m == 2 {
        31
    } else if m == 3 {
        59
    } else if m == 4 {
        90
    } else if m == 5 {
        120
    } else if m == 6 {
        151
    } else if m == 7 {
        181
    } else if m == 8 {
        212
    } else if m == 9 {
        243
    } else if m == 10 {
        273
    } else if m == 11 {
        304
    } else {
        334
    };
    leap_day + base
}

pub open spec fn year_len(y: int) -> int {
    if is_leap(y) { 366 } else { 365 }
}

/// Days from 0001-01-01 to January 1st of year `y`.
pub open spec fn days_before_year(y: int) -> int {
    365 * (y - 1) + (y - 1) / 4 - (y - 1) / 100 + (y - 1) / 400
}

impl Date {
    pub open spec fn wf(self) -> bool {
        1 <= self.year <= MAX_YEAR && 1 <= self.month <= 12 && 1 <= self.day <= days_in_month(
            self.year as int,
            self.month as int,
        )
    }

    /// Days since 0001-01-01, which was a Monday.
    #[verifier::opaque]
    pub open spec fn day_number(self) -> int {
        days_before_year(self.year as int) + days_before_month(self.year as int, self.month as int)
            + self.day - 1
    }

    /// Lexicographic order on (year, month, day).
    pub open spec fn lex_lt(self, other: Date) -> bool {
        self.year < other.year || (self.year == other.year && (self.month < other.month || (
        self.month == other.month && self.day < other.day)))
    }

    /// The calendar day before this one.
    pub open spec fn prev(self) -> Date {
        if self.day > 1 {
            Date { day: (self.day - 1) as u32, ..self }
        } else if self.month > 1 {
            Date {
                year: self.year,
                month: (self.month - 1) as u32,
                day: days_in_month(self.year as int, self.month - 1) as u32,
            }
        } else {
            Date { year: (self.year - 1) as u32, month: 12, day: 31 }
        }
    }

    /// The date `n` days before this one.
    pub open spec fn minus_days(self, n: nat) -> Date
        decreases n,
    {
        if n == 0 {
            self
        } else {
            self.prev().minus_days((n - 1) as nat)
        }
    }

    pub open spec fn month_start(self) -> Date {
        Date { day: 1, ..self }
    }

    pub open spec fn year_start(self) -> Date {
        Date { month: 1, day: 1, ..self }
    }

    /// Days since the Monday that starts this date's week.
    pub open spec fn days_from_monday(self) -> int {
        self.day_number() % 7
    }

    pub open spec fn week_start(self) -> Date {
        self.minus_days(self.days_from_monday() as nat)
    }
}

pub proof fn lemma_year_step(y: int)
    requires
        y >= 1,
    ensures
        days_before_year(y + 1) == days_before_year(y) + year_len(y),
{
    reveal(Date::day_number);
    reveal(Resolution::bucket);
    assert(y / 4 - (y - 1) / 4 == if y % 4 == 0 { 1int } else { 0int });
    assert(y / 100 - (y - 1) / 100 == if y % 100 == 0 { 1int } else { 0int });
    assert(y / 400 - (y - 1) / 400 == if y % 400 == 0 { 1int } else { 0int });
}

proof fn lemma_years_ordered(y1: int, y2: int)
    requires
        1 <= y1 < y2,
    ensures
        days_before_year(y1) + year_len(y1) <= days_before_year(y2),
    decreases y2 - y1,
{
    reveal(Date::day_number);
    reveal(Resolution::bucket);
    lemma_year_step(y1);
    if y1 + 1 < y2 {
        lemma_years_ordered(y1 + 1, y2);
    }
}

proof fn lemma_day_in_year(d: Date)
    requires
        d.wf(),
    ensures
        0 <= days_before_month(d.year as int, d.month as int) + d.day - 1 < year_len(
            d.year as int,
        ),
{
    reveal(Date::day_number);
    reveal(Resolution::bucket);
}

proof fn lemma_days_before_year_nonneg(y: int)
    requires
        y >= 1,
    ensures
        days_before_year(y) >= 0,
{
    reveal(Date::day_number);
    reveal(Resolution::bucket);
}

/// Later in the calendar means a larger day number.
pub proof fn lemma_lex_day_number(a: Date, b: Date)
    requires
        a.wf(),
        b.wf(),
        a.lex_lt(b),
    ensures
        a.day_number() < b.day_number(),
{
    reveal(Date::day_number);
    reveal(Resolution::bucket);
    lemma_day_in_year(a);
    lemma_day_in_year(b);
    if a.year < b.year {
        lemma_years_ordered(a.year as int, b.year as int);
    }
}

/// Two valid dates with the same day number are the same date.
pub proof fn lemma_day_number_injective(a: Date, b: Date)
    requires
        a.wf(),
        b.wf(),
        a.day_number() == b.day_number(),
    ensures
        a == b,
{
    reveal(Date::day_number);
    reveal(Resolution::bucket);
    if a.lex_lt(b) {
        lemma_lex_day_number(a, b);
    } else if b.lex_lt(a) {
        lemma_lex_day_number(b, a);
    }
}

pub proof fn lemma_day_number_nonneg(d: Date)
    requires
        d.wf(),
    ensures
        d.day_number() >= 0,
        d.day_number() == 0 <==> (d.year == 1 && d.month == 1 && d.day == 1),
{
    reveal(Date::day_number);
    reveal(Resolution::bucket);
    lemma_days_before_year_nonneg(d.year as int);
    if d.year > 1 {
        lemma_years_ordered(1, d.year as int);
    }
}

pub proof fn lemma_prev(d: Date)
    requires
        d.wf(),
        d.day_number() > 0,
    ensures
        d.prev().wf(),
        d.prev().day_number() == d.day_number() - 1,
{
    reveal(Date::day_number);
    reveal(Resolution::bucket);
    lemma_day_number_nonneg(d);
    if d.day == 1 && d.month == 1 {
        lemma_year_step(d.year - 1);
    }
}

pub proof fn lemma_minus_days(d: Date, n: nat)
    requires
        d.wf(),
        n <= d.day_number(),
    ensures
        d.minus_days(n).wf(),
        d.minus_days(n).day_number() == d.day_number() - n,
    decreases n,
{
    reveal(Date::day_number);
    reveal(Resolution::bucket);
    if n > 0 {
        lemma_prev(d);
        lemma_minus_days(d.prev(), (n - 1) as nat);
    }
}

pub proof fn lemma_week_start(d: Date)
    requires
        d.wf(),
    ensures
        d.week_start().wf(),
        d.week_start().day_number() == d.day_number() - d.day_number() % 7,
        d.week_start().day_number() % 7 == 0,
{
    reveal(Date::day_number);
    reveal(Resolution::bucket);
    lemma_day_number_nonneg(d);
    lemma_minus_days(d, d.days_from_monday() as nat);
}

pub fn days_in_month_exec(year: u32, month: u32) -> (r: u32)
    requires
        1 <= month <= 12,
    ensures
        r == days_in_month(year as int, month as int),
{
    reveal(Date::day_number);
    reveal(Resolution::bucket);
    if month == 2 {
        if (year % 4 == 0 && year % 100 != 0) || year % 400 == 0 {
            29
        } else {
            28
        }
    } else if month == 4 || month == 6 || month == 9 || month == 11 {
        30
    } else {
        31
    }
}

impl Date {
    /// The date with the given year, month and day, if there is one.
    pub fn from_ymd(year: u32, month: u32, day: u32) -> (r: Option<Date>)
        ensures
            r is Some <==> (Date { year, month, day }).wf(),
            r is Some ==> r->Some_0 == (Date { year, month, day }),
    {
        reveal(Date::day_number);
        reveal(Resolution::bucket);
        if year < 1 || year > MAX_YEAR || month < 1 || month > 12 {
            return None;
        }
        if day < 1 || day > days_in_month_exec(year, month) {
            return None;
        }
        Some(Date { year, month, day })
    }

    pub fn year(&self) -> (r: u32)
        ensures
            r == self.year,
    {
        reveal(Date::day_number);
        reveal(Resolution::bucket);
        self.year
    }

    pub fn month(&self) -> (r: u32)
        ensures
            r == self.month,
    {
        reveal(Date::day_number);
        reveal(Resolution::bucket);
        self.month
    }

    pub fn day(&self) -> (r: u32)
        ensures
            r == self.day,
    {
        reveal(Date::day_number);
        reveal(Resolution::bucket);
        self.day
    }

    /// Days since 0001-01-01.
    pub fn ordinal(&self) -> (r: u64)
        requires
            self.wf(),
        ensures
            r == self.day_number(),
    {
        reveal(Date::day_number);
        reveal(Resolution::bucket);
        let y: u64 = (self.year - 1) as u64;
        let m: u64 = self.month as u64;
        let leap_day: u64 = if m > 2 && ((self.year % 4 == 0 && self.year % 100 != 0) || self.year
            % 400 == 0) {
            1
        } else {
            0
        };
        let before_month: u64 = if m == 1 {
            0
        } else if m == 2 {
            31
        } else if m == 3 {
            59
        } else if m == 4 {
            90
        } else if m == 5 {
            120
        } else if m == 6 {
            151
        } else if m == 7 {
            181
        } else if m == 8 {
            212
        } else if m == 9 {
            243
        } else if m == 10 {
            273
        } else if m == 11 {
            304
        } else {
            334
        };
        365 * y + y / 4 - y / 100 + y / 400 + leap_day + before_month + self.day as u64 - 1
    }

    pub fn prev_day(&self) -> (r: Date)
        requires
            self.wf(),
            self.day_number() > 0,
        ensures
            r == self.prev(),
            r.wf(),
            r.day_number() == self.day_number() - 1,
    {
        reveal(Date::day_number);
        reveal(Resolution::bucket);
        proof {
            lemma_prev(*self);
        }
        if self.day > 1 {
            Date { year: self.year, month: self.month, day: self.day - 1 }
        } else if self.month > 1 {
            Date {
                year: self.year,
                month: self.month - 1,
                day: days_in_month_exec(self.year, self.month - 1),
            }
        } else {
            proof {
                lemma_day_number_nonneg(*self);
            }
            Date { year: self.year - 1, month: 12, day: 31 }
        }
    }

    /// The Monday on or before this date.
    pub fn start_of_week(&self) -> (r: Date)
        requires
            self.wf(),
        ensures
            r == self.week_start(),
            r.wf(),
    {
        reveal(Date::day_number);
        reveal(Resolution::bucket);
        let n = self.ordinal();
        let k: u64 = n % 7;
        let mut cur = *self;
        let mut i: u64 = 0;
        while i < k
            invariant
                self.wf(),
                n == self.day_number(),
                k == self.day_number() % 7,
                i <= k,
                cur.wf(),
                cur == self.minus_days(i as nat),
                cur.day_number() == self.day_number() - i,
            decreases k - i,
        {
            proof {
                lemma_minus_days_step(*self, i as nat);
            }
            cur = cur.prev_day();
            i = i + 1;
        }
        proof {
            lemma_week_start(*self);
        }
        cur
    }
}

proof fn lemma_minus_days_step(d: Date, n: nat)
    ensures
        d.minus_days(n + 1) == d.minus_days(n).prev(),
    decreases n,
{
    reveal(Date::day_number);
    reveal(Resolution::bucket);
    assert(d.minus_days(n + 1) == d.prev().minus_days(n));
    if n > 0 {
        lemma_minus_days_step(d.prev(), (n - 1) as nat);
        assert(d.minus_days(n) == d.prev().minus_days((n - 1) as nat));
    } else {
        assert(d.prev().minus_days(0) == d.prev());
    }
}

/// Granularity of a chart's buckets.
#[derive(Clone, Copy, Debug, PartialEq, Eq, Structural)]
pub enum Resolution {
    Day,
    Week,
    Month,
    Year,
}

impl Resolution {
    /// The first day of the bucket that holds `d`.
    #[verifier::opaque]
    pub open spec fn bucket(self, d: Date) -> Date {
        match self {
            Resolution::Day => d,
            Resolution::Week => d.week_start(),
            Resolution::Month => d.month_start(),
            Resolution::Year => d.year_start(),
        }
    }

    /// Whether every bucket of `self` lies inside one bucket of `coarse`.
    pub open spec fn refines(self, coarse: Resolution) -> bool {
        self == coarse || self == Resolution::Day || (self == Resolution::Month && coarse
            == Resolution::Year)
    }

    pub fn bucket_start(&self, d: &Date) -> (r: Date)
        requires
            d.wf(),
        ensures
            r == self.bucket(*d),
            r.wf(),
    {
        reveal(Date::day_number);
        reveal(Resolution::bucket);
        match self {
            Resolution::Day => *d,
            Resolution::Week => d.start_of_week(),
            Resolution::Month => Date { year: d.year, month: d.month, day: 1 },
            Resolution::Year => Date { year: d.year, month: 1, day: 1 },
        }
    }
}

/// A bucket start is a valid date on or before the date, and is its own bucket start.
pub proof fn lemma_bucket(res: Resolution, d: Date)
    requires
        d.wf(),
    ensures
        res.bucket(d).wf(),
        res.bucket(d).day_number() <= d.day_number(),
        res.bucket(res.bucket(d)) == res.bucket(d),
{
    reveal(Date::day_number);
    reveal(Resolution::bucket);
    match res {
        Resolution::Week => {
            lemma_week_start(d);
            let w = d.week_start();
            assert(w.days_from_monday() == 0);
            assert(w.minus_days(0) == w);
        },
        Resolution::Month => {
            if d.day > 1 {
                lemma_lex_day_number(d.month_start(), d);
            }
        },
        Resolution::Year => {
            if d.month > 1 || d.day > 1 {
                lemma_lex_day_number(d.year_start(), d);
            }
        },
        Resolution::Day => {},
    }
}

proof fn lemma_floor_week(x: int, y: int)
    requires
        0 <= x <= y,
    ensures
        x - x % 7 <= y - y % 7,
{
    reveal(Date::day_number);
    reveal(Resolution::bucket);
}

proof fn lemma_coarse_monotone(a: Date, b: Date, ba: Date, bb: Date)
    requires
        a.wf(),
        b.wf(),
        ba.wf(),
        bb.wf(),
        a.day_number() <= b.day_number(),
        bb.lex_lt(ba) ==> b.lex_lt(a),
    ensures
        ba.day_number() <= bb.day_number(),
{
    reveal(Date::day_number);
    reveal(Resolution::bucket);
    if bb.lex_lt(ba) {
        lemma_lex_day_number(b, a);
    } else if ba.lex_lt(bb) {
        lemma_lex_day_number(ba, bb);
    }
}

/// Bucket starts keep the order of the dates they come from.
pub proof fn lemma_bucket_monotone(res: Resolution, a: Date, b: Date)
    requires
        a.wf(),
        b.wf(),
        a.day_number() <= b.day_number(),
    ensures
        res.bucket(a).day_number() <= res.bucket(b).day_number(),
{
    reveal(Date::day_number);
    reveal(Resolution::bucket);
    lemma_bucket(res, a);
    lemma_bucket(res, b);
    match res {
        Resolution::Week => {
            lemma_week_start(a);
            lemma_week_start(b);
            lemma_day_number_nonneg(a);
            lemma_floor_week(a.day_number(), b.day_number());
        },
        Resolution::Day => {},
        Resolution::Month => {
            lemma_coarse_monotone(a, b, a.month_start(), b.month_start());
        },
        Resolution::Year => {
            lemma_coarse_monotone(a, b, a.year_start(), b.year_start());
        },
    }
}

/// For dates in order, different bucket starts are strictly in order.
pub proof fn lemma_bucket_strict(res: Resolution, a: Date, b: Date)
    requires
        a.wf(),
        b.wf(),
        a.day_number() <= b.day_number(),
        res.bucket(a) != res.bucket(b),
    ensures
        res.bucket(a).day_number() < res.bucket(b).day_number(),
{
    reveal(Date::day_number);
    reveal(Resolution::bucket);
    lemma_bucket_monotone(res, a, b);
    lemma_bucket(res, a);
    lemma_bucket(res, b);
    if res.bucket(a).day_number() == res.bucket(b).day_number() {
        lemma_day_number_injective(res.bucket(a), res.bucket(b));
    }
}

/// The buckets of a finer resolution partition those of a coarser one: bucketing a
/// fine bucket start gives the same coarse bucket as bucketing the date itself.
pub proof fn lemma_partition(fine: Resolution, coarse: Resolution, d: Date)
    requires
        d.wf(),
        fine.refines(coarse),
    ensures
        coarse.bucket(fine.bucket(d)) == coarse.bucket(d),
{
    reveal(Date::day_number);
    reveal(Resolution::bucket);
    lemma_bucket(fine, d);
    lemma_bucket(coarse, d);
}

impl Date {
    pub fn is_valid(&self) -> (r: bool)
        ensures
            r == self.wf(),
    {
        self.year >= 1 && self.year <= MAX_YEAR && self.month >= 1 && self.month <= 12 && self.day
            >= 1 && self.day <= days_in_month_exec(self.year, self.month)
    }
}

/// The start of the bucket before bucket start `b`; the first day of the calendar stays put.
pub open spec fn step_back(res: Resolution, b: Date) -> Date {
    if b.year == 1 && b.month == 1 && b.day == 1 {
        b
    } else {
        match res {
            Resolution::Day => b.prev(),
            Resolution::Week => b.minus_days(7),
            Resolution::Month => if b.month > 1 {
                Date { year: b.year, month: (b.month - 1) as u32, day: 1 }
            } else {
                Date { year: (b.year - 1) as u32, month: 12, day: 1 }
            },
            Resolution::Year => Date { year: (b.year - 1) as u32, month: 1, day: 1 },
        }
    }
}

/// The bucket start `n` buckets before bucket start `b`.
pub open spec fn back_buckets(res: Resolution, b: Date, n: nat) -> Date
    decreases n,
{
    if n == 0 {
        b
    } else {
        step_back(res, back_buckets(res, b, (n - 1) as nat))
    }
}

/// Whether `b` starts a bucket of `res`.
pub open spec fn aligned(res: Resolution, b: Date) -> bool {
    match res {
        Resolution::Day => true,
        Resolution::Week => b.day_number() % 7 == 0,
        Resolution::Month => b.day == 1,
        Resolution::Year => b.month == 1 && b.day == 1,
    }
}

/// How much trailing history of a chart is computed again on each update: `count` buckets
/// of `resolution` before the bucket of "now".
#[derive(Clone, Copy, Debug, PartialEq, Eq, Structural)]
pub struct BatchWindow {
    pub resolution: Resolution,
    pub count: u32,
}

impl BatchWindow {
    pub open spec fn start_for(self, now: Date) -> Date {
        back_buckets(self.resolution, self.resolution.bucket(now), self.count as nat)
    }

    /// The first bucket that an update at `now` computes again.
    pub fn window_start(&self, now: &Date) -> (r: Date)
        requires
            now.wf(),
        ensures
            r == self.start_for(*now),
            r.wf(),
            r.day_number() <= now.day_number(),
            self.resolution.bucket(r) == r,
    {
        reveal(Resolution::bucket);
        reveal(Date::day_number);
        let res = self.resolution;
        let mut cur = res.bucket_start(now);
        let mut i: u32 = 0;
        proof {
            lemma_bucket(res, *now);
            if res == Resolution::Week {
                lemma_week_start(*now);
            }
        }
        while i < self.count
            invariant
                now.wf(),
                res == self.resolution,
                i <= self.count,
                cur.wf(),
                aligned(res, cur),
                cur == back_buckets(res, res.bucket(*now), i as nat),
                cur.day_number() <= now.day_number(),
            decreases self.count - i,
        {
            cur = step_back_exec(res, &cur);
            i = i + 1;
        }
        proof {
            lemma_aligned_bucket(res, cur);
        }
        cur
    }
}

/// A bucket start is its own bucket.
pub proof fn lemma_aligned_bucket(res: Resolution, b: Date)
    requires
        b.wf(),
        aligned(res, b),
    ensures
        res.bucket(b) == b,
{
    reveal(Resolution::bucket);
    if res == Resolution::Week {
        assert(b.days_from_monday() == 0);
        assert(b.minus_days(0) == b);
    }
}

fn week_before(b: &Date) -> (r: Date)
    requires
        b.wf(),
        b.day_number() % 7 == 0,
        b.day_number() > 0,
    ensures
        r == b.minus_days(7),
        r.wf(),
        r.day_number() == b.day_number() - 7,
{
    let mut cur = *b;
    let mut i: u64 = 0;
    while i < 7
        invariant
            b.wf(),
            b.day_number() % 7 == 0,
            b.day_number() > 0,
            i <= 7,
            cur.wf(),
            cur == b.minus_days(i as nat),
            cur.day_number() == b.day_number() - i,
        decreases 7 - i,
    {
        proof {
            lemma_minus_days_step(*b, i as nat);
        }
        cur = cur.prev_day();
        i = i + 1;
    }
    cur
}

#[verifier::rlimit(30)]
fn step_back_exec(res: Resolution, b: &Date) -> (r: Date)
    requires
        b.wf(),
        aligned(res, *b),
    ensures
        r == step_back(res, *b),
        r.wf(),
        aligned(res, r),
        r.day_number() <= b.day_number(),
{
    reveal(Date::day_number);
    proof {
        lemma_day_number_nonneg(*b);
    }
    if b.year == 1 && b.month == 1 && b.day == 1 {
        return *b;
    }
    match res {
        Resolution::Day => b.prev_day(),
        Resolution::Week => week_before(b),
        Resolution::Month => {
            let r = if b.month > 1 {
                Date { year: b.year, month: b.month - 1, day: 1 }
            } else {
                Date { year: b.year - 1, month: 12, day: 1 }
            };
            proof {
                lemma_lex_day_number(r, *b);
            }
            r
        },
        Resolution::Year => {
            let r = Date { year: b.year - 1, month: 1, day: 1 };
            proof {
                lemma_lex_day_number(r, *b);
            }
            r
        },
    }
}

} // verus!
