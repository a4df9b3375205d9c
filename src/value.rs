use vstd::prelude::*;
use vstd::string::{StrSliceExecFns, StringExecFns};

verus! {

/// Number of decimal places a chart value keeps.
pub const FRACTION_DIGITS: usize = 16;

/// Ten to the power of `FRACTION_DIGITS`: the units in one whole.
pub const UNITS_PER_WHOLE: u128 = 10_000_000_000_000_000;

/// An exact decimal with `FRACTION_DIGITS` places, held as a count of units.
#[derive(Clone, Copy, Debug, PartialEq, Eq, Structural)]
pub struct Decimal {
    pub units: i128,
}

impl Decimal {
    pub fn from_units(units: i128) -> (r: Decimal)
        ensures
            r.units == units,
    {
        Decimal { units }
    }

    pub fn units(&self) -> (r: i128)
        ensures
            r == self.units,
    {
        self.units
    }
}

pub open spec fn is_digit(c: char) -> bool {
    '0' <= c && c <= '9'
}

pub open spec fn char_digit(c: char) -> int {
    (c as u32) as int - ('0' as u32) as int
}

pub open spec fn digit_char(d: int) -> char {
    if d == 0 {
        '0'
    } else if d == 1 {
        '1'
    } else if d == 2 {
        '2'
    } else if d == 3 {
        '3'
    } else if d == 4 {
        '4'
    } else if d == 5 {
        '5'
    } else if d == 6 {
        '6'
    } else if d == 7 {
        '7'
    } else if d == 8 {
        '8'
    } else {
        '9'
    }
}

pub open spec fn all_digits(s: Seq<char>) -> bool {
    forall|i: int| 0 <= i < s.len() ==> is_digit(#[trigger] s[i])
}

/// The number a string of decimal digits spells.
pub open spec fn value_of(s: Seq<char>) -> int
    decreases s.len(),
{
    if s.len() == 0 {
        0
    } else {
        value_of(s.drop_last()) * 10 + char_digit(s.last())
    }
}

pub open spec fn pow10(n: nat) -> int
    decreases n,
{
    if n == 0 {
        1
    } else {
        10 * pow10((n - 1) as nat)
    }
}

/// The decimal digits of `n`, without leading zeros.
pub open spec fn digits_of(n: nat) -> Seq<char>
    decreases n,
{
    if n < 10 {
        seq![digit_char(n as int)]
    } else {
        digits_of(n / 10).push(digit_char((n % 10) as int))
    }
}

/// The last `k` decimal digits of `f`, zero-padded.
pub open spec fn fixed_digits(f: nat, k: nat) -> Seq<char>
    decreases k,
{
    if k == 0 {
        Seq::empty()
    } else {
        fixed_digits(f / 10, (k - 1) as nat).push(digit_char((f % 10) as int))
    }
}

/// A nonzero fraction of `k` digits with its trailing zeros dropped: the digits left, and how many.
pub open spec fn trimmed(f: nat, k: nat) -> (nat, nat)
    decreases k,
{
    if k > 0 && f % 10 == 0 {
        trimmed(f / 10, (k - 1) as nat)
    } else {
        (f, k)
    }
}

/// The text of a value of `units` units: an optional minus sign, the whole part, and the
/// fraction after a point without trailing zeros, left out when it is zero.
pub open spec fn decimal_text(units: int) -> Seq<char> {
    let m: nat = if units < 0 { (-units) as nat } else { units as nat };
    let whole = digits_of(m / (UNITS_PER_WHOLE as nat));
    let frac: nat = m % (UNITS_PER_WHOLE as nat);
    let sign: Seq<char> = if units < 0 { seq!['-'] } else { Seq::empty() };
    let t = trimmed(frac, FRACTION_DIGITS as nat);
    let tail: Seq<char> = if frac == 0 { Seq::empty() } else { seq!['.'] + fixed_digits(t.0, t.1) };
    sign + whole + tail
}

/// Index of the first '.' in `s`, or its length.
pub open spec fn dot_at(s: Seq<char>) -> int
    decreases s.len(),
{
    if s.len() == 0 || s[0] == '.' {
        0
    } else {
        1 + dot_at(s.skip(1))
    }
}

/// The units that the unsigned text `t` denotes: digits, then optionally a point and one to
/// `FRACTION_DIGITS` digits.
pub open spec fn unsigned_units(t: Seq<char>) -> Option<int> {
    let d = dot_at(t);
    let ip = t.take(d);
    if ip.len() == 0 || !all_digits(ip) {
        None
    } else if d == t.len() {
        Some(value_of(ip) * UNITS_PER_WHOLE)
    } else {
        let fp = t.skip(d + 1);
        if 1 <= fp.len() <= FRACTION_DIGITS && all_digits(fp) {
            Some(value_of(ip) * UNITS_PER_WHOLE + value_of(fp) * pow10((FRACTION_DIGITS - fp.len()) as nat))
        } else {
            None
        }
    }
}

/// The units that text `s` denotes, with an optional leading minus sign.
pub open spec fn text_units(s: Seq<char>) -> Option<int> {
    if s.len() > 0 && s[0] == '-' {
        match unsigned_units(s.skip(1)) {
            Some(v) => Some(-v),
            None => None,
        }
    } else {
        unsigned_units(s)
    }
}

/// What `parse` gives for text `s`: the value it denotes, where that fits.
pub open spec fn parsed(s: Seq<char>) -> Option<Decimal> {
    match text_units(s) {
        Some(v) => if i128::MIN <= v <= i128::MAX {
            Some(Decimal { units: v as i128 })
        } else {
            None
        },
        None => None,
    }
}

proof fn lemma_digit(d: int)
    requires
        0 <= d < 10,
    ensures
        is_digit(digit_char(d)),
        char_digit(digit_char(d)) == d,
{
}

proof fn lemma_digits_of(n: nat)
    ensures
        all_digits(digits_of(n)),
        value_of(digits_of(n)) == n,
        digits_of(n).len() >= 1,
    decreases n,
{
    lemma_digit((n % 10) as int);
    if n >= 10 {
        lemma_digits_of(n / 10);
        let s = digits_of(n);
        assert(s.drop_last() =~= digits_of(n / 10));
        assert(s.last() == digit_char((n % 10) as int));
        assert(value_of(s) == value_of(s.drop_last()) * 10 + char_digit(s.last()));
        assert((n / 10) * 10 + n % 10 == n);
        assert forall|i: int| 0 <= i < s.len() implies is_digit(#[trigger] s[i]) by {
            if i < s.len() - 1 {
                assert(s[i] == digits_of(n / 10)[i]);
            }
        }
    } else {
        assert(digits_of(n).drop_last() =~= Seq::<char>::empty());
        assert(digits_of(n).last() == digit_char(n as int));
        assert(value_of(Seq::<char>::empty()) == 0);
    }
}

proof fn lemma_fixed_digits(f: nat, k: nat)
    requires
        f < pow10(k),
    ensures
        all_digits(fixed_digits(f, k)),
        value_of(fixed_digits(f, k)) == f,
        fixed_digits(f, k).len() == k,
    decreases k,
{
    if k > 0 {
        lemma_digit((f % 10) as int);
        assert(f / 10 < pow10((k - 1) as nat));
        lemma_fixed_digits(f / 10, (k - 1) as nat);
        let s = fixed_digits(f, k);
        assert(s.drop_last() =~= fixed_digits(f / 10, (k - 1) as nat));
        assert forall|i: int| 0 <= i < s.len() implies is_digit(#[trigger] s[i]) by {
            if i < s.len() - 1 {
                assert(s[i] == fixed_digits(f / 10, (k - 1) as nat)[i]);
            }
        }
    }
}

proof fn lemma_pow10_pos(n: nat)
    ensures
        pow10(n) >= 1,
    decreases n,
{
    if n > 0 {
        lemma_pow10_pos((n - 1) as nat);
    }
}

proof fn lemma_trimmed(f: nat, k: nat)
    requires
        0 < f < pow10(k),
    ensures
        1 <= trimmed(f, k).1 <= k,
        trimmed(f, k).0 < pow10(trimmed(f, k).1),
        trimmed(f, k).0 * pow10((k - trimmed(f, k).1) as nat) == f,
    decreases k,
{
    lemma_pow10_pos(k);
    if k > 0 && f % 10 == 0 {
        assert(f / 10 < pow10((k - 1) as nat));
        assert(f / 10 > 0);
        lemma_trimmed(f / 10, (k - 1) as nat);
        let t = trimmed(f / 10, (k - 1) as nat);
        assert(pow10((k - t.1) as nat) == 10 * pow10((k - 1 - t.1) as nat));
        assert(t.0 * pow10((k - t.1) as nat) == 10 * (t.0 * pow10((k - 1 - t.1) as nat))) by (nonlinear_arith)
            requires
                pow10((k - t.1) as nat) == 10 * pow10((k - 1 - t.1) as nat),
        ;
    } else {
        assert(k >= 1);
    }
}

proof fn lemma_dot_digits(a: Seq<char>, b: Seq<char>)
    requires
        all_digits(a),
    ensures
        dot_at(a + b) == a.len() + dot_at(b),
    decreases a.len(),
{
    if a.len() > 0 {
        assert((a + b)[0] == a[0]);
        assert((a + b).skip(1) =~= a.skip(1) + b);
        assert forall|i: int| 0 <= i < a.skip(1).len() implies is_digit(#[trigger] a.skip(1)[i]) by {
            assert(a.skip(1)[i] == a[i + 1]);
        }
        lemma_dot_digits(a.skip(1), b);
    } else {
        assert(a + b =~= b);
    }
}

proof fn lemma_unsigned_round_trip(m: nat)
    requires
        m <= 0x8000_0000_0000_0000_0000_0000_0000_0000,
    ensures
        ({
            let frac: nat = m % (UNITS_PER_WHOLE as nat);
            let t = trimmed(frac, FRACTION_DIGITS as nat);
            let tail: Seq<char> = if frac == 0 {
                Seq::empty()
            } else {
                seq!['.'] + fixed_digits(t.0, t.1)
            };
            unsigned_units(digits_of(m / (UNITS_PER_WHOLE as nat)) + tail) == Some(m as int)
        }),
{
    let u = UNITS_PER_WHOLE as nat;
    let q = m / u;
    let frac: nat = m % u;
    let whole = digits_of(q);
    let t = trimmed(frac, FRACTION_DIGITS as nat);
    let tail: Seq<char> = if frac == 0 { Seq::empty() } else { seq!['.'] + fixed_digits(t.0, t.1) };
    let s = whole + tail;
    lemma_digits_of(q);
    lemma_dot_digits(whole, tail);
    lemma_pow10_16();
    assert(m == q * u + frac);
    if frac == 0 {
        assert(dot_at(tail) == 0);
        assert(s =~= whole);
        assert(s.take(whole.len() as int) =~= whole);
    } else {
        lemma_trimmed(frac, 16);
        lemma_fixed_digits(t.0, t.1);
        assert(tail[0] == '.');
        assert(dot_at(tail) == 0);
        assert(s.take(whole.len() as int) =~= whole);
        assert(s.skip(whole.len() as int + 1) =~= fixed_digits(t.0, t.1));
    }
}

proof fn lemma_pow10_16()
    ensures
        pow10(16) == 10_000_000_000_000_000,
{
    reveal_with_fuel(pow10, 17);
}

/// Reading back the text of any value gives that value.
pub proof fn law_round_trip(v: Decimal)
    ensures
        parsed(decimal_text(v.units as int)) == Some(v),
{
    let units = v.units as int;
    let m: nat = if units < 0 { (-units) as nat } else { units as nat };
    lemma_unsigned_round_trip(m);
    let u = UNITS_PER_WHOLE as nat;
    let frac: nat = m % u;
    let t = trimmed(frac, FRACTION_DIGITS as nat);
    let tail: Seq<char> = if frac == 0 { Seq::empty() } else { seq!['.'] + fixed_digits(t.0, t.1) };
    let body = digits_of(m / u) + tail;
    lemma_digits_of(m / u);
    if units < 0 {
        assert(decimal_text(units) =~= seq!['-'] + body);
        assert((seq!['-'] + body).skip(1) =~= body);
    } else {
        assert(decimal_text(units) =~= body);
        assert(body[0] == digits_of(m / u)[0]);
    }
}

/// Largest whole part whose units stay within the magnitude of `i128::MIN`.
const MAX_WHOLE: u128 = 17_014_118_346_046_923_173_168;

fn digit_str(d: u128) -> (r: &'static str)
    requires
        d < 10,
    ensures
        r@ == seq![digit_char(d as int)],
{
    if d == 0 {
        proof { reveal_strlit("0"); }
        "0"
    } else if d == 1 {
        proof { reveal_strlit("1"); }
        "1"
    } else if d == 2 {
        proof { reveal_strlit("2"); }
        "2"
    } else if d == 3 {
        proof { reveal_strlit("3"); }
        "3"
    } else if d == 4 {
        proof { reveal_strlit("4"); }
        "4"
    } else if d == 5 {
        proof { reveal_strlit("5"); }
        "5"
    } else if d == 6 {
        proof { reveal_strlit("6"); }
        "6"
    } else if d == 7 {
        proof { reveal_strlit("7"); }
        "7"
    } else if d == 8 {
        proof { reveal_strlit("8"); }
        "8"
    } else {
        proof { reveal_strlit("9"); }
        "9"
    }
}

fn push_digits(s: &mut String, n: u128)
    ensures
        final(s)@ == old(s)@ + digits_of(n as nat),
    decreases n,
{
    if n >= 10 {
        push_digits(s, n / 10);
    }
    s.append(digit_str(n % 10));
    proof {
        if n >= 10 {
            assert(digits_of(n as nat) =~= digits_of((n / 10) as nat).push(digit_char((n % 10) as int)));
        }
    }
    assert(s@ =~= old(s)@ + digits_of(n as nat));
}

fn push_fixed(s: &mut String, f: u128, k: u32)
    ensures
        final(s)@ == old(s)@ + fixed_digits(f as nat, k as nat),
    decreases k,
{
    if k > 0 {
        push_fixed(s, f / 10, k - 1);
        s.append(digit_str(f % 10));
        assert(s@ =~= old(s)@ + fixed_digits(f as nat, k as nat));
    } else {
        assert(s@ =~= old(s)@ + fixed_digits(f as nat, k as nat));
    }
}

proof fn lemma_dot_found(t: Seq<char>, k: int)
    requires
        0 <= k <= t.len(),
        forall|m: int| 0 <= m < k ==> t[m] != '.',
        k == t.len() || t[k] == '.',
    ensures
        dot_at(t) == k,
    decreases k,
{
    if k > 0 {
        assert forall|m: int| 0 <= m < k - 1 implies t.skip(1)[m] != '.' by {
            assert(t.skip(1)[m] == t[m + 1]);
        }
        if k < t.len() {
            assert(t.skip(1)[k - 1] == t[k]);
        }
        lemma_dot_found(t.skip(1), k - 1);
    }
}

proof fn lemma_value_prefix(s: Seq<char>, j: int)
    requires
        all_digits(s),
        0 <= j <= s.len(),
    ensures
        value_of(s) >= value_of(s.take(j)) >= 0,
    decreases s.len(),
{
    if s.len() > 0 {
        let t = s.drop_last();
        assert forall|i: int| 0 <= i < t.len() implies is_digit(#[trigger] t[i]) by {
            assert(t[i] == s[i]);
        }
        assert(is_digit(s[s.len() - 1]));
        if j == s.len() {
            assert(s.take(j) =~= s);
            lemma_value_prefix(t, 0);
        } else {
            assert(t.take(j) =~= s.take(j));
            lemma_value_prefix(t, j);
        }
    } else {
        assert(s.take(j) =~= s);
    }
}

impl Decimal {
    /// The text this value is stored as.
    pub fn to_text(&self) -> (r: String)
        ensures
            r@ == decimal_text(self.units as int),
    {
        let units = self.units;
        let m: u128 = if units >= 0 {
            units as u128
        } else {
            (-(units + 1)) as u128 + 1
        };
        let mut s = String::new();
        if units < 0 {
            proof { reveal_strlit("-"); }
            s.append("-");
        }
        push_digits(&mut s, m / UNITS_PER_WHOLE);
        let frac = m % UNITS_PER_WHOLE;
        if frac != 0 {
            proof { reveal_strlit("."); }
            s.append(".");
            let mut f: u128 = frac;
            let mut k: u32 = 16;
            while k > 0 && f % 10 == 0
                invariant
                    k <= 16,
                    trimmed(f as nat, k as nat) == trimmed(frac as nat, 16),
                decreases k,
            {
                f = f / 10;
                k = k - 1;
            }
            push_fixed(&mut s, f, k);
        }
        proof {
            let mm: nat = if units < 0 { (-units) as nat } else { units as nat };
            assert(mm == m);
        }
        assert(s@ =~= decimal_text(units as int));
        s
    }

    /// The value that `text` denotes: an optional minus sign, digits, and optionally a point
    /// followed by one to sixteen digits. `None` for any other text or a value out of range.
    pub fn parse(text: &str) -> (r: Option<Decimal>)
        ensures
            r == parsed(text@),
    {
        let n = text.unicode_len();
        let mut chars: Vec<char> = Vec::new();
        let mut i: usize = 0;
        while i < n
            invariant
                n == text@.len(),
                i <= n,
                chars@ == text@.take(i as int),
            decreases n - i,
        {
            chars.push(text.get_char(i));
            assert(chars@ =~= text@.take(i as int + 1));
            i = i + 1;
        }
        assert(chars@ =~= text@);
        parse_chars(&chars)
    }
}

#[verifier::rlimit(100)]
fn parse_chars(s: &Vec<char>) -> (r: Option<Decimal>)
    ensures
        r == parsed(s@),
{
    let len = s.len();
    let neg = len > 0 && s[0] == '-';
    let start: usize = if neg { 1 } else { 0 };
    let ghost t = s@.skip(start as int);
    proof {
        if !neg {
            assert(t =~= s@);
        }
    }
    let mut d: usize = start;
    while d < len && s[d] != '.'
        invariant
            start <= d <= len,
            len == s.len(),
            forall|m: int| start <= m < d ==> s@[m] != '.',
        decreases len - d,
    {
        d = d + 1;
    }
    proof {
        assert forall|m: int| 0 <= m < d - start implies t[m] != '.' by {
            assert(t[m] == s@[start + m]);
        }
        if d < len {
            assert(t[d - start] == s@[d as int]);
        }
        lemma_dot_found(t, d - start);
    }
    let ghost ip = s@.subrange(start as int, d as int);
    assert(t.take(d - start) =~= ip);
    if d == start {
        return None;
    }
    let mut acc: u128 = 0;
    let mut m: usize = start;
    while m < d
        invariant
            start <= m <= d <= len,
            len == s.len(),
            ip == s@.subrange(start as int, d as int),
            t == s@.skip(start as int),
            neg == (len > 0 && s@[0] == '-'),
            start == (if neg { 1usize } else { 0usize }),
            !neg ==> t == s@,
            dot_at(t) == d - start,
            t.take(d - start) == ip,
            d < len ==> s@[d as int] == '.',
            acc <= MAX_WHOLE,
            all_digits(s@.subrange(start as int, m as int)),
            acc == value_of(s@.subrange(start as int, m as int)),
        decreases d - m,
    {
        let c = s[m];
        proof {
            assert(s@.subrange(start as int, m + 1).drop_last() =~= s@.subrange(start as int, m as int));
            assert(ip[m - start] == c);
        }
        if !('0' <= c && c <= '9') {
            assert(!all_digits(ip));
            return None;
        }
        let dv: u128 = (c as u32 - '0' as u32) as u128;
        acc = acc * 10 + dv;
        proof {
            assert forall|x: int| 0 <= x < m + 1 - start implies is_digit(
                #[trigger] s@.subrange(start as int, m + 1)[x],
            ) by {
                if x < m - start {
                    assert(s@.subrange(start as int, m + 1)[x] == s@.subrange(start as int, m as int)[x]);
                }
            }
        }
        if acc > MAX_WHOLE {
            proof {
                if all_digits(ip) {
                    assert(ip.take(m + 1 - start) =~= s@.subrange(start as int, m + 1));
                    lemma_value_prefix(ip, m + 1 - start);
                    assert(value_of(ip) >= 17_014_118_346_046_923_173_169);
                    lemma_whole_too_large(value_of(ip));
                    if d - start < t.len() {
                        let fp = t.skip(d - start + 1);
                        if all_digits(fp) {
                            lemma_value_prefix(fp, 0);
                            lemma_pow10_pos((FRACTION_DIGITS - fp.len()) as nat);
                            assert(value_of(fp) * pow10((FRACTION_DIGITS - fp.len()) as nat) >= 0)
                                by (nonlinear_arith)
                                requires
                                    value_of(fp) >= 0,
                                    pow10((FRACTION_DIGITS - fp.len()) as nat) >= 1,
                            ;
                        }
                    }
                }
            }
            return None;
        }
        m = m + 1;
    }
    assert(ip =~= s@.subrange(start as int, m as int));
    let whole: u128 = acc * UNITS_PER_WHOLE;
    let mut mag: u128 = whole;
    if d < len {
        let k: usize = len - d - 1;
        let ghost fp = s@.subrange(d + 1, len as int);
        assert(t.skip(d - start + 1) =~= fp);
        if k < 1 || k > 16 {
            return None;
        }
        let mut fv: u128 = 0;
        let mut j: usize = d + 1;
        while j < len
            invariant
                d + 1 <= j <= len,
                len == s.len(),
                k == len - d - 1,
                k <= 16,
                fp == s@.subrange(d + 1, len as int),
                t.skip(d - start + 1) == fp,
                ip == s@.subrange(start as int, d as int),
                    t == s@.skip(start as int),
                neg == (len > 0 && s@[0] == '-'),
                start == (if neg { 1usize } else { 0usize }),
                !neg ==> t == s@,
                dot_at(t) == d - start,
                t.take(d - start) == ip,
                d < len ==> s@[d as int] == '.',
                all_digits(ip),
                acc == value_of(ip),
                acc <= MAX_WHOLE,
                whole == acc * UNITS_PER_WHOLE,
                all_digits(s@.subrange(d + 1, j as int)),
                fv == value_of(s@.subrange(d + 1, j as int)),
                fv < pow10((j - d - 1) as nat),
            decreases len - j,
        {
            let c = s[j];
            proof {
                assert(s@.subrange(d + 1, j + 1).drop_last() =~= s@.subrange(d + 1, j as int));
                assert(fp[j - d - 1] == c);
            }
            if !('0' <= c && c <= '9') {
                assert(!all_digits(fp));
                return None;
            }
            proof {
                lemma_pow10_le_16((j - d - 1) as nat);
            }
            fv = fv * 10 + (c as u32 - '0' as u32) as u128;
            proof {
                assert forall|x: int| 0 <= x < j + 1 - d - 1 implies is_digit(
                    #[trigger] s@.subrange(d + 1, j + 1)[x],
                ) by {
                    if x < j - d - 1 {
                        assert(s@.subrange(d + 1, j + 1)[x] == s@.subrange(d + 1, j as int)[x]);
                    }
                }
            }
            j = j + 1;
        }
        assert(fp =~= s@.subrange(d + 1, j as int));
        let mut p: u128 = 1;
        let mut e: usize = 0;
        while e < 16 - k
            invariant
                e <= 16 - k,
                k >= 1,
                p == pow10(e as nat),
            decreases 16 - k - e,
        {
            proof {
                lemma_pow10_le_16(e as nat);
            }
            p = p * 10;
            e = e + 1;
        }
        proof {
            lemma_pow10_split(k as nat, (16 - k) as nat);
            lemma_pow10_16();
            lemma_pow10_pos((16 - k) as nat);
            assert(fv * p < UNITS_PER_WHOLE) by (nonlinear_arith)
                requires
                    fv < pow10(k as nat),
                    p == pow10((16 - k) as nat),
                    pow10(k as nat) * pow10((16 - k) as nat) == 10_000_000_000_000_000,
                    p >= 1,
            ;
        }
        mag = whole + fv * p;
        proof {
            assert(unsigned_units(t) == Some(mag as int));
        }
    } else {
        proof {
            assert(unsigned_units(t) == Some(mag as int));
        }
    }
    if neg {
        if mag > 0x8000_0000_0000_0000_0000_0000_0000_0000u128 {
            return None;
        }
        if mag == 0 {
            Some(Decimal { units: 0 })
        } else {
            Some(Decimal { units: -((mag - 1) as i128) - 1 })
        }
    } else {
        if mag > 0x7FFF_FFFF_FFFF_FFFF_FFFF_FFFF_FFFF_FFFFu128 {
            return None;
        }
        Some(Decimal { units: mag as i128 })
    }
}

proof fn lemma_whole_too_large(x: int)
    requires
        x >= 17_014_118_346_046_923_173_169,
    ensures
        x * 10_000_000_000_000_000 > 170_141_183_460_469_231_731_687_303_715_884_105_728int,
{
    assert(17_014_118_346_046_923_173_169int * 10_000_000_000_000_000int
        == 170_141_183_460_469_231_731_690_000_000_000_000_000int);
    assert(x * 10_000_000_000_000_000int >= 17_014_118_346_046_923_173_169int * 10_000_000_000_000_000int)
        by (nonlinear_arith)
        requires
            x >= 17_014_118_346_046_923_173_169int,
    ;
}

proof fn lemma_pow10_le_16(e: nat)
    requires
        e <= 16,
    ensures
        1 <= pow10(e) <= 10_000_000_000_000_000,
    decreases e,
{
    lemma_pow10_16();
    if e < 16 {
        lemma_pow10_mono(e, 16);
    }
    lemma_pow10_pos(e);
}

proof fn lemma_pow10_mono(a: nat, b: nat)
    requires
        a <= b,
    ensures
        pow10(a) <= pow10(b),
    decreases b - a,
{
    if a < b {
        lemma_pow10_mono(a, (b - 1) as nat);
        lemma_pow10_pos((b - 1) as nat);
    }
}

proof fn lemma_pow10_split(a: nat, b: nat)
    ensures
        pow10(a) * pow10(b) == pow10(a + b),
    decreases a,
{
    if a > 0 {
        lemma_pow10_split((a - 1) as nat, b);
        assert(pow10(a) * pow10(b) == 10 * (pow10((a - 1) as nat) * pow10(b))) by (nonlinear_arith)
            requires
                pow10(a) == 10 * pow10((a - 1) as nat),
        ;
    }
}

} // verus!
