//! UTC timestamps with one-second resolution, written and read in the RFC
//! 3339 form `YYYY-MM-DDTHH:MM:SSZ` over the proleptic Gregorian calendar.

use vstd::prelude::*;

use crate::text;
use crate::text::{char_of_digit, chars_of, concat3, decimal_text, digit, value_of_digit};

verus! {

/// Seconds since 1970-01-01T00:00:00Z.
#[derive(Debug, Clone, Copy, PartialEq, Eq, PartialOrd, Ord, Hash, Structural)]
pub struct Timestamp {
    pub secs: i64,
}

// ---------------------------------------------------------------------------
// Calendar
// ---------------------------------------------------------------------------

pub open spec fn is_leap(y: int) -> bool {
    y % 4 == 0 && (y % 100 != 0 || y % 400 == 0)
}

pub open spec fn leap_day(y: int) -> int {
    if is_leap(y) {
        1
    } else {
        0
    }
}

/// Days from 0000-01-01 to the first day of year `y`.
pub open spec fn days_before_year(y: int) -> int {
    365 * y + (y + 3) / 4 - (y + 99) / 100 + (y + 399) / 400
}

/// Days of year `y` before month `m` (1 to 12; 13 stands for the whole year).
pub open spec fn days_before_month(y: int, m: int) -> int {
    if m <= 1 {
        0
    } else if m == 2 {
        31
    } else {
        leap_day(y) + if m == 3 {
            59
        } else if m == 4 {
            90
        } else if m == 5 {
            120
        } else if m == 6 {
            151
        } else if m == 7 {
            181
        } else if m == 8 {
            212
        } else if m == 9 {
            243
        } else if m == 10 {
            273
        } else if m == 11 {
            304
        } else if m == 12 {
            334
        } else {
            365int
        }
    }
}

/// Days of month `m` in year `y`.
pub open spec fn days_in_month(y: int, m: int) -> int {
    days_before_month(y, m + 1) - days_before_month(y, m)
}

/// A calendar date: year, month, day.
pub open spec fn is_date(d: (int, int, int)) -> bool {
    1 <= d.1 <= 12 && 1 <= d.2 <= days_in_month(d.0, d.1)
}

/// Days from 1970-01-01 to the date.
pub open spec fn day_number(d: (int, int, int)) -> int {
    days_before_year(d.0) + days_before_month(d.0, d.1) + d.2 - 1 - 719528
}

/// The date of a day number.
pub open spec fn date_of(n: int) -> (int, int, int) {
    choose|d: (int, int, int)| is_date(d) && #[trigger] day_number(d) == n
}

// ---------------------------------------------------------------------------
// Text form
// ---------------------------------------------------------------------------

/// A number below 100 as two digits.
pub open spec fn two_digits(n: int) -> Seq<char> {
    seq![text::digit_char(n / 10), text::digit_char(n % 10)]
}

/// A year: four digits from 0 to 9999, else plain decimal with its sign.
pub open spec fn year_text(y: int) -> Seq<char> {
    if 0 <= y <= 9999 {
        two_digits(y / 100) + two_digits(y % 100)
    } else if y < 0 {
        seq!['-'] + text::decimal((-y) as nat)
    } else {
        text::decimal(y as nat)
    }
}

/// The RFC 3339 text of an instant given in seconds since 1970.
#[verifier::opaque]
pub open spec fn stamp(secs: int) -> Seq<char> {
    let d = date_of(secs / 86400);
    let r = secs % 86400;
    year_text(d.0) + seq!['-'] + two_digits(d.1) + seq!['-'] + two_digits(d.2) + seq!['T']
        + two_digits(r / 3600) + seq![':'] + two_digits(r / 60 % 60) + seq![':'] + two_digits(
        r % 60,
    ) + seq!['Z']
}

/// The number that two characters spell.
pub open spec fn pair_value(s: Seq<char>, i: int) -> int {
    text::digit_value(s[i]) * 10 + text::digit_value(s[i + 1])
}

/// The text has digits where a stamp has them, and the stamp's separators in
/// between.
pub open spec fn is_stamp_shaped(s: Seq<char>) -> bool {
    &&& s.len() == 20
    &&& s[4] == '-' && s[7] == '-' && s[10] == 'T' && s[13] == ':' && s[16] == ':' && s[19] == 'Z'
    &&& forall|i: int|
        0 <= i < 19 && i != 4 && i != 7 && i != 10 && i != 13 && i != 16 ==> text::is_digit(
            #[trigger] s[i],
        )
}

/// The date that a stamp spells.
pub open spec fn stamp_date(s: Seq<char>) -> (int, int, int) {
    (pair_value(s, 0) * 100 + pair_value(s, 2), pair_value(s, 5), pair_value(s, 8))
}

/// The instant that a stamp spells: `None` unless its date exists and its
/// time of day is within 00:00:00 and 23:59:59.
#[verifier::opaque]
pub open spec fn stamp_secs(s: Seq<char>) -> Option<int> {
    if is_stamp_shaped(s) && is_date(stamp_date(s)) && pair_value(s, 11) < 24 && pair_value(s, 14)
        < 60 && pair_value(s, 17) < 60 {
        Some(
            day_number(stamp_date(s)) * 86400 + pair_value(s, 11) * 3600 + pair_value(s, 14) * 60
                + pair_value(s, 17),
        )
    } else {
        None
    }
}

/// The complaint about a text that is no stamp.
pub open spec fn stamp_complaint(s: Seq<char>) -> Seq<char> {
    "invalid RFC 3339 UTC timestamp `"@ + s + "`"@
}

// ---------------------------------------------------------------------------
// Calendar lemmas
// ---------------------------------------------------------------------------

proof fn lemma_fourth_year(y: int)
    ensures
        (y + 4) / 4 == (y + 3) / 4 + (if y % 4 == 0 {
            1int
        } else {
            0int
        }),
{
}

proof fn lemma_hundredth_year(y: int)
    ensures
        (y + 100) / 100 == (y + 99) / 100 + (if y % 100 == 0 {
            1int
        } else {
            0int
        }),
        y % 100 == 0 ==> y % 4 == 0,
{
}

proof fn lemma_four_hundredth_year(y: int)
    ensures
        (y + 400) / 400 == (y + 399) / 400 + (if y % 400 == 0 {
            1int
        } else {
            0int
        }),
        y % 400 == 0 ==> y % 100 == 0,
{
}

proof fn lemma_year_length(y: int)
    ensures
        days_before_year(y + 1) - days_before_year(y) == 365 + leap_day(y),
{
    lemma_fourth_year(y);
    lemma_hundredth_year(y);
    lemma_four_hundredth_year(y);
}

proof fn lemma_year_bounds(y: int)
    ensures
        146097 * y - 400 <= 400 * days_before_year(y) <= 146097 * y + 800,
{
}

proof fn lemma_years_increase(a: int, b: int)
    requires
        a <= b,
    ensures
        days_before_year(b) - days_before_year(a) >= 365 * (b - a),
    decreases b - a,
{
    if a < b {
        lemma_years_increase(a, b - 1);
        lemma_year_length(b - 1);
    }
}

proof fn lemma_date_before(d: (int, int, int), e: (int, int, int))
    requires
        is_date(d),
        is_date(e),
        d.0 < e.0 || (d.0 == e.0 && (d.1 < e.1 || (d.1 == e.1 && d.2 < e.2))),
    ensures
        day_number(d) < day_number(e),
{
    if d.0 < e.0 {
        lemma_year_length(d.0);
        lemma_years_increase(d.0 + 1, e.0);
    }
}

/// No two dates share a day number.
proof fn lemma_date_unique(d: (int, int, int), e: (int, int, int))
    requires
        is_date(d),
        is_date(e),
        day_number(d) == day_number(e),
    ensures
        d == e,
{
    if d.0 < e.0 || (d.0 == e.0 && (d.1 < e.1 || (d.1 == e.1 && d.2 < e.2))) {
        lemma_date_before(d, e);
    } else if d != e {
        lemma_date_before(e, d);
    }
}

proof fn lemma_date_of(d: (int, int, int))
    requires
        is_date(d),
    ensures
        date_of(day_number(d)) == d,
{
    let e = date_of(day_number(d));
    assert(is_date(e) && day_number(e) == day_number(d));
    lemma_date_unique(d, e);
}

// ---------------------------------------------------------------------------
// Code
// ---------------------------------------------------------------------------

fn floor_div(a: i64, b: i64) -> (r: i64)
    requires
        b > 0,
    ensures
        r == a as int / b as int,
{
    if a >= 0 {
        a / b
    } else {
        let n: i64 = -(a + 1);
        let q: i64 = n / b;
        proof {
            let m = n % b;
            assert(n == b * q + m && 0 <= m < b) by (nonlinear_arith)
                requires
                    b > 0,
                    n >= 0,
                    q == n as int / b as int,
                    m == n as int % b as int,
            ;
            assert(q <= n) by (nonlinear_arith)
                requires
                    n == b * q + m,
                    0 <= m,
                    b > 0,
                    n >= 0,
            ;
            assert(a as int / b as int == -q - 1) by (nonlinear_arith)
                requires
                    b > 0,
                    n == b * q + m,
                    0 <= m < b,
                    n == -(a + 1),
            ;
        }
        -q - 1
    }
}

fn leap(y: i64) -> (r: bool)
    requires
        -1_000_000_000_000 <= y <= 1_000_000_000_000,
    ensures
        r == is_leap(y as int),
{
    let a: i64 = y - 4 * floor_div(y, 4);
    let b: i64 = y - 100 * floor_div(y, 100);
    let c: i64 = y - 400 * floor_div(y, 400);
    a == 0 && (b != 0 || c == 0)
}

fn year_start(y: i64) -> (r: i64)
    requires
        -1_000_000_000_000 <= y <= 1_000_000_000_000,
    ensures
        r == days_before_year(y as int),
{
    365 * y + floor_div(y + 3, 4) - floor_div(y + 99, 100) + floor_div(y + 399, 400)
}

fn month_start(y: i64, m: i64) -> (r: i64)
    requires
        -1_000_000_000_000 <= y <= 1_000_000_000_000,
        1 <= m <= 13,
    ensures
        r == days_before_month(y as int, m as int),
        0 <= r <= 366,
{
    let table: i64 = if m == 1 {
        0
    } else if m == 2 {
        31
    } else if m == 3 {
        59
    } else if m == 4 {
        90
    } else if m == 5 {
        120
    } else if m == 6 {
        151
    } else if m == 7 {
        181
    } else if m == 8 {
        212
    } else if m == 9 {
        243
    } else if m == 10 {
        273
    } else if m == 11 {
        304
    } else if m == 12 {
        334
    } else {
        365
    };
    if m > 2 && leap(y) {
        table + 1
    } else {
        table
    }
}

/// Year, month and day of a day number.
fn civil(n: i64) -> (r: (i64, i64, i64))
    requires
        -200_000_000_000_000 <= n <= 200_000_000_000_000,
    ensures
        is_date((r.0 as int, r.1 as int, r.2 as int)),
        day_number((r.0 as int, r.1 as int, r.2 as int)) == n,
        -600_000_000_000 <= r.0 <= 600_000_000_000,
{
    let z: i64 = n + 719528;
    let mut y: i64 = floor_div(z * 400, 146097);
    while year_start(y) > z
        invariant
            -600_000_000_000 <= y <= 600_000_000_000,
            -200_000_000_000_000 <= z <= 200_000_000_719_528,
        decreases y + 600_000_000_001,
    {
        proof {
            lemma_year_bounds(y as int);
            lemma_year_length(y - 1);
        }
        y -= 1;
    }
    while year_start(y + 1) <= z
        invariant
            -600_000_000_000 <= y <= 600_000_000_000,
            -200_000_000_000_000 <= z <= 200_000_000_719_528,
            days_before_year(y as int) <= z,
        decreases 600_000_000_001 - y,
    {
        proof {
            lemma_year_bounds(y + 1);
            lemma_year_length(y as int);
        }
        y += 1;
    }
    proof {
        lemma_year_length(y as int);
    }
    let day: i64 = z - year_start(y);
    let mut m: i64 = 1;
    while m < 12 && month_start(y, m + 1) <= day
        invariant
            -600_000_000_000 <= y <= 600_000_000_000,
            1 <= m <= 12,
            days_before_month(y as int, m as int) <= day,
        decreases 12 - m,
    {
        m += 1;
    }
    (y, m, day - month_start(y, m) + 1)
}

fn push_two(s: &mut String, n: i64)
    requires
        0 <= n < 100,
    ensures
        final(s)@ == old(s)@ + two_digits(n as int),
{
    s.push(char_of_digit((n / 10) as u8));
    s.push(char_of_digit((n % 10) as u8));
    assert(s@ =~= old(s)@ + two_digits(n as int));
}

fn push_year(s: &mut String, y: i64)
    requires
        -600_000_000_000 <= y <= 600_000_000_000,
    ensures
        final(s)@ == old(s)@ + year_text(y as int),
{
    if y >= 0 && y <= 9999 {
        push_two(s, y / 100);
        push_two(s, y % 100);
        assert(s@ =~= old(s)@ + year_text(y as int));
    } else if y < 0 {
        s.push('-');
        s.push_str(decimal_text((-y) as u64).as_str());
        assert(s@ =~= old(s)@ + year_text(y as int));
    } else {
        s.push_str(decimal_text(y as u64).as_str());
    }
}

fn pair_at(cs: &[char], i: usize) -> (r: i64)
    requires
        i + 1 < cs@.len(),
        text::is_digit(cs@[i as int]),
        text::is_digit(cs@[i + 1]),
    ensures
        r == pair_value(cs@, i as int),
        0 <= r <= 99,
{
    value_of_digit(cs[i]) as i64 * 10 + value_of_digit(cs[i + 1]) as i64
}

fn stamp_shaped(cs: &[char]) -> (r: bool)
    ensures
        r == is_stamp_shaped(cs@),
{
    if cs.len() != 20 {
        return false;
    }
    if cs[4] != '-' || cs[7] != '-' || cs[10] != 'T' || cs[13] != ':' || cs[16] != ':' || cs[19]
        != 'Z' {
        return false;
    }
    let mut i: usize = 0;
    while i < 19
        invariant
            i <= 19,
            cs@.len() == 20,
            forall|j: int|
                0 <= j < i && j != 4 && j != 7 && j != 10 && j != 13 && j != 16 ==> text::is_digit(
                    #[trigger] cs@[j],
                ),
        decreases 19 - i,
    {
        if i != 4 && i != 7 && i != 10 && i != 13 && i != 16 && !digit(cs[i]) {
            return false;
        }
        i += 1;
    }
    true
}

/// `std::time::SystemTime`.
#[verifier::external_type_specification]
#[verifier::external_body]
pub struct ExSystemTime(std::time::SystemTime);

/// `SystemTime::now` of the standard library: what the clock shows. Nothing is
/// claimed of it.
pub assume_specification[ std::time::SystemTime::now ]() -> (r: std::time::SystemTime);

/// The whole seconds from the start of 1970 to a time, as
/// `SystemTime::duration_since` counts them; `None` for an earlier time.
pub uninterp spec fn unix_seconds(t: std::time::SystemTime) -> Option<u64>;

/// `SystemTime::duration_since` of the standard library, from the start of 1970
/// on and in whole seconds: a function of the time given.
#[verifier::external_body]
fn seconds_since_1970(t: &std::time::SystemTime) -> (r: Option<u64>)
    ensures
        r == unix_seconds(*t),
{
    t.duration_since(std::time::UNIX_EPOCH).ok().map(|d| d.as_secs())
}

/// The instant that a clock shows: as many seconds as have passed since 1970,
/// 1970 itself for a clock set earlier, and the last instant for one that has
/// passed it.
pub open spec fn clock_secs(n: Option<u64>) -> int {
    match n {
        Some(n) => if n <= i64::MAX {
            n as int
        } else {
            i64::MAX as int
        },
        None => 0,
    }
}

/// A clock can show this instant.
pub open spec fn is_clock_time(secs: int) -> bool {
    exists|t: std::time::SystemTime| secs == clock_secs(#[trigger] unix_seconds(t))
}

impl Timestamp {
    /// 1970-01-01T00:00:00Z.
    pub fn unix_epoch() -> (r: Timestamp)
        ensures
            r.secs == 0,
    {
        Timestamp { secs: 0 }
    }

    /// The instant that a clock shows so many seconds after the start of 1970;
    /// `None` is a clock set earlier.
    pub fn from_clock(n: Option<u64>) -> (r: Timestamp)
        ensures
            r.secs == clock_secs(n),
    {
        match n {
            Some(n) => Timestamp {
                secs: if n <= i64::MAX as u64 {
                    n as i64
                } else {
                    i64::MAX
                },
            },
            None => Timestamp { secs: 0 },
        }
    }

    /// The current time: what the clock shows.
    pub fn now() -> (r: Timestamp)
        ensures
            is_clock_time(r.secs as int),
            r.secs >= 0,
    {
        let t = std::time::SystemTime::now();
        Timestamp::from_clock(seconds_since_1970(&t))
    }

    /// Read an RFC 3339 UTC timestamp (`YYYY-MM-DDTHH:MM:SSZ`).
    pub fn parse(s: &str) -> (r: Result<Timestamp, String>)
        ensures
            match r {
                Ok(t) => stamp_secs(s@) == Some(t.secs as int),
                Err(m) => stamp_secs(s@) is None && m@ == stamp_complaint(s@),
            },
    {
        let cs = chars_of(s);
        match read_stamp(cs.as_slice()) {
            Some(t) => Ok(t),
            None => Err(concat3("invalid RFC 3339 UTC timestamp `", s, "`")),
        }
    }

    /// The RFC 3339 text of this instant.
    pub fn to_string(&self) -> (r: String)
        ensures
            r@ == stamp(self.secs as int),
    {
        let days: i64 = floor_div(self.secs, 86400);
        let rest: i64 = (self.secs as i128 - days as i128 * 86400) as i64;
        assert(rest == self.secs as int % 86400);
        let date = civil(days);
        proof {
            lemma_date_of((date.0 as int, date.1 as int, date.2 as int));
        }
        let mut s = String::new();
        push_year(&mut s, date.0);
        s.push('-');
        push_two(&mut s, date.1);
        s.push('-');
        push_two(&mut s, date.2);
        s.push('T');
        push_two(&mut s, rest / 3600);
        s.push(':');
        push_two(&mut s, rest / 60 % 60);
        s.push(':');
        push_two(&mut s, rest % 60);
        s.push('Z');
        proof {
            reveal(stamp);
        }
        assert(s@ =~= stamp(self.secs as int));
        s
    }
}

fn read_stamp(cs: &[char]) -> (r: Option<Timestamp>)
    ensures
        match r {
            Some(t) => stamp_secs(cs@) == Some(t.secs as int),
            None => stamp_secs(cs@) is None,
        },
{
    proof {
        reveal(stamp_secs);
    }
    if !stamp_shaped(cs) {
        return None;
    }
    let y: i64 = pair_at(cs, 0) * 100 + pair_at(cs, 2);
    let m: i64 = pair_at(cs, 5);
    let d: i64 = pair_at(cs, 8);
    let h: i64 = pair_at(cs, 11);
    let mi: i64 = pair_at(cs, 14);
    let sec: i64 = pair_at(cs, 17);
    if m < 1 || m > 12 || h >= 24 || mi >= 60 || sec >= 60 {
        return None;
    }
    let first: i64 = month_start(y, m);
    let next: i64 = month_start(y, m + 1);
    if d < 1 || d > next - first {
        return None;
    }
    proof {
        lemma_year_bounds(y as int);
    }
    let day: i64 = year_start(y) + first + d - 1 - 719528;
    Some(Timestamp { secs: day * 86400 + h * 3600 + mi * 60 + sec })
}

// ---------------------------------------------------------------------------
// Laws
// ---------------------------------------------------------------------------

proof fn lemma_two_digits(n: int)
    requires
        0 <= n < 100,
    ensures
        two_digits(n).len() == 2,
        text::is_digit(two_digits(n)[0]),
        text::is_digit(two_digits(n)[1]),
        text::digit_value(two_digits(n)[0]) * 10 + text::digit_value(two_digits(n)[1]) == n,
{
}

/// The first and the last instant whose year has four digits.
pub open spec fn has_four_digit_year(secs: int) -> bool {
    -62167219200 <= secs <= 253402300799
}

proof fn lemma_stamp_layout(d: (int, int, int), r: int)
    requires
        is_date(d),
        0 <= d.0 <= 9999,
        0 <= r < 86400,
    ensures
        ({
            let s = stamp(day_number(d) * 86400 + r);
            &&& is_stamp_shaped(s)
            &&& stamp_date(s) == d
            &&& pair_value(s, 11) == r / 3600
            &&& pair_value(s, 14) == r / 60 % 60
            &&& pair_value(s, 17) == r % 60
        }),
{
    reveal(stamp);
    let secs = day_number(d) * 86400 + r;
    assert(secs / 86400 == day_number(d) && secs % 86400 == r);
    lemma_date_of(d);
    let s = stamp(secs);
    lemma_two_digits(d.0 / 100);
    lemma_two_digits(d.0 % 100);
    lemma_two_digits(d.1);
    lemma_two_digits(d.2);
    lemma_two_digits(r / 3600);
    lemma_two_digits(r / 60 % 60);
    lemma_two_digits(r % 60);
    let yh = two_digits(d.0 / 100);
    let yl = two_digits(d.0 % 100);
    let mo = two_digits(d.1);
    let da = two_digits(d.2);
    let ho = two_digits(r / 3600);
    let mi = two_digits(r / 60 % 60);
    let se = two_digits(r % 60);
    assert(s =~= seq![
        yh[0], yh[1], yl[0], yl[1], '-', mo[0], mo[1], '-', da[0], da[1], 'T',
        ho[0], ho[1], ':', mi[0], mi[1], ':', se[0], se[1], 'Z',
    ]);
}

proof fn lemma_four_digit_date(secs: int)
    requires
        has_four_digit_year(secs),
    ensures
        is_date(date_of(secs / 86400)),
        day_number(date_of(secs / 86400)) == secs / 86400,
        0 <= date_of(secs / 86400).0 <= 9999,
{
    let n = secs / 86400;
    lemma_every_day_has_a_date(n);
    let d = date_of(n);
    assert(is_date(d) && day_number(d) == n);
    if d.0 < 0 {
        lemma_date_before(d, (0, 1, 1));
    }
    if d.0 > 9999 {
        lemma_date_before((9999, 12, 31), d);
    }
}

proof fn lemma_every_day_has_a_date(n: int)
    ensures
        exists|d: (int, int, int)| is_date(d) && #[trigger] day_number(d) == n,
    decreases if n >= 0 { n } else { -n },
{
    if n == 0 {
        assert(is_date((1970, 1, 1)) && day_number((1970, 1, 1)) == 0);
    } else if n > 0 {
        lemma_every_day_has_a_date(n - 1);
        let d = choose|d: (int, int, int)| is_date(d) && #[trigger] day_number(d) == n - 1;
        let e = if d.2 < days_in_month(d.0, d.1) {
            (d.0, d.1, d.2 + 1)
        } else if d.1 < 12 {
            (d.0, d.1 + 1, 1)
        } else {
            (d.0 + 1, 1, 1)
        };
        lemma_year_length(d.0);
        assert(is_date(e) && day_number(e) == n);
    } else {
        lemma_every_day_has_a_date(n + 1);
        let d = choose|d: (int, int, int)| is_date(d) && #[trigger] day_number(d) == n + 1;
        let e = if d.2 > 1 {
            (d.0, d.1, d.2 - 1)
        } else if d.1 > 1 {
            (d.0, d.1 - 1, days_in_month(d.0, d.1 - 1))
        } else {
            (d.0 - 1, 12, 31)
        };
        lemma_year_length(d.0 - 1);
        assert(is_date(e) && day_number(e) == n);
    }
}

/// Reading what was written gives the instant back, for every instant of the
/// years 0000 to 9999.
pub proof fn law_stamp_reads_back(secs: int)
    requires
        has_four_digit_year(secs),
    ensures
        stamp_secs(stamp(secs)) == Some(secs),
{
    reveal(stamp_secs);
    lemma_four_digit_date(secs);
    let d = date_of(secs / 86400);
    let r = secs % 86400;
    lemma_stamp_layout(d, r);
    assert(secs == day_number(d) * 86400 + r);
    assert(r == (r / 3600) * 3600 + (r / 60 % 60) * 60 + r % 60);
}

proof fn lemma_pair_is_its_digits(a: Seq<char>, b: Seq<char>, i: int)
    requires
        is_stamp_shaped(a),
        is_stamp_shaped(b),
        i == 0 || i == 2 || i == 5 || i == 8 || i == 11 || i == 14 || i == 17,
        pair_value(a, i) == pair_value(b, i),
    ensures
        a[i] == b[i],
        a[i + 1] == b[i + 1],
        0 <= pair_value(a, i) <= 99,
{
    assert(text::is_digit(a[i]) && text::is_digit(a[i + 1]) && text::is_digit(b[i]) && text::is_digit(b[i + 1]));
}

proof fn lemma_same_parts_same_stamp(a: Seq<char>, b: Seq<char>)
    requires
        is_stamp_shaped(a),
        is_stamp_shaped(b),
        stamp_date(a) == stamp_date(b),
        pair_value(a, 11) == pair_value(b, 11),
        pair_value(a, 14) == pair_value(b, 14),
        pair_value(a, 17) == pair_value(b, 17),
    ensures
        a == b,
{
    assert(text::is_digit(a[0]) && text::is_digit(a[1]) && text::is_digit(a[2]) && text::is_digit(a[3]));
    assert(text::is_digit(b[0]) && text::is_digit(b[1]) && text::is_digit(b[2]) && text::is_digit(b[3]));
    lemma_pair_is_its_digits(a, b, 0);
    lemma_pair_is_its_digits(a, b, 2);
    lemma_pair_is_its_digits(a, b, 5);
    lemma_pair_is_its_digits(a, b, 8);
    lemma_pair_is_its_digits(a, b, 11);
    lemma_pair_is_its_digits(a, b, 14);
    lemma_pair_is_its_digits(a, b, 17);
    assert(a =~= b);
}

proof fn lemma_stamp_range(d: (int, int, int), r: int)
    requires
        is_date(d),
        0 <= d.0 <= 9999,
        0 <= r < 86400,
    ensures
        has_four_digit_year(day_number(d) * 86400 + r),
{
    lemma_years_increase(0, d.0);
    lemma_years_increase(d.0, 9999);
    if d != (0int, 1int, 1int) {
        lemma_date_before((0, 1, 1), d);
    }
    if d != (9999int, 12int, 31int) {
        lemma_date_before(d, (9999, 12, 31));
    }
}

proof fn lemma_time_of_day(h: int, m: int, c: int)
    requires
        0 <= h < 24,
        0 <= m < 60,
        0 <= c < 60,
    ensures
        ({
            let r = h * 3600 + m * 60 + c;
            0 <= r < 86400 && r / 3600 == h && r / 60 % 60 == m && r % 60 == c
        }),
{
}

proof fn lemma_writes_back(s: Seq<char>, d: (int, int, int), h: int, m: int, c: int)
    requires
        is_stamp_shaped(s),
        is_date(d),
        stamp_date(s) == d,
        pair_value(s, 11) == h,
        pair_value(s, 14) == m,
        pair_value(s, 17) == c,
        0 <= h < 24,
        0 <= m < 60,
        0 <= c < 60,
        0 <= d.0 <= 9999,
    ensures
        stamp(day_number(d) * 86400 + (h * 3600 + m * 60 + c)) == s,
        has_four_digit_year(day_number(d) * 86400 + (h * 3600 + m * 60 + c)),
{
    let r = h * 3600 + m * 60 + c;
    lemma_time_of_day(h, m, c);
    lemma_stamp_layout(d, r);
    lemma_stamp_range(d, r);
    lemma_same_parts_same_stamp(stamp(day_number(d) * 86400 + r), s);
}

/// Writing what was read gives the text back: an instant has one stamp only.
pub proof fn law_stamp_writes_back(s: Seq<char>)
    requires
        stamp_secs(s) is Some,
    ensures
        stamp(stamp_secs(s)->0) == s,
        has_four_digit_year(stamp_secs(s)->0),
{
    reveal(stamp_secs);
    lemma_pair_is_its_digits(s, s, 0);
    lemma_pair_is_its_digits(s, s, 2);
    lemma_pair_is_its_digits(s, s, 11);
    lemma_pair_is_its_digits(s, s, 14);
    lemma_pair_is_its_digits(s, s, 17);
    lemma_writes_back(s, stamp_date(s), pair_value(s, 11), pair_value(s, 14), pair_value(s, 17));
}

/// The days of a month: 31, or 30 for four of them, and 28 for the second, or
/// 29 in every fourth year but the hundredths that are no four-hundredths.
pub open spec fn month_days(y: int, m: int) -> int {
    if m == 2 {
        if y % 400 == 0 || (y % 4 == 0 && y % 100 != 0) {
            29
        } else {
            28
        }
    } else if m == 4 || m == 6 || m == 9 || m == 11 {
        30
    } else {
        31
    }
}

/// A day of the calendar.
pub open spec fn in_calendar(y: int, m: int, d: int) -> bool {
    1 <= m <= 12 && 1 <= d <= month_days(y, m)
}

/// The day after a day.
pub open spec fn day_after(y: int, m: int, d: int) -> (int, int, int) {
    if d < month_days(y, m) {
        (y, m, d + 1)
    } else if m < 12 {
        (y, m + 1, 1)
    } else {
        (y + 1, 1, 1)
    }
}

/// Days are counted one by one from the first of January 1970, through every
/// month and every leap year; what is no day of the calendar is no date.
pub proof fn law_days_follow_each_other(y: int, m: int, d: int)
    ensures
        day_number((1970, 1, 1)) == 0,
        is_date((y, m, d)) <==> in_calendar(y, m, d),
        in_calendar(y, m, d) ==> day_number(day_after(y, m, d)) == day_number((y, m, d)) + 1,
{
    assert(is_leap(y) == (y % 400 == 0 || (y % 4 == 0 && y % 100 != 0))) by {
        lemma_four_hundredth_year(y);
        lemma_hundredth_year(y);
    }
    lemma_year_length(y);
}

/// The digit of a number at a power of ten.
pub open spec fn digit_at(n: int, power: int) -> char {
    (48 + n / power % 10) as char
}

/// The text of an instant: `1970-01-01T00:00:00Z`.
pub open spec fn spelled(y: int, m: int, d: int, h: int, min: int, sec: int) -> Seq<char> {
    seq![
        digit_at(y, 1000),
        digit_at(y, 100),
        digit_at(y, 10),
        digit_at(y, 1),
        '-',
        digit_at(m, 10),
        digit_at(m, 1),
        '-',
        digit_at(d, 10),
        digit_at(d, 1),
        'T',
        digit_at(h, 10),
        digit_at(h, 1),
        ':',
        digit_at(min, 10),
        digit_at(min, 1),
        ':',
        digit_at(sec, 10),
        digit_at(sec, 1),
        'Z',
    ]
}

proof fn lemma_digits(n: int)
    requires
        0 <= n <= 99,
    ensures
        text::is_digit(digit_at(n, 10)),
        text::is_digit(digit_at(n, 1)),
        text::digit_value(digit_at(n, 10)) * 10 + text::digit_value(digit_at(n, 1)) == n,
{
}

proof fn lemma_year_digits(y: int)
    requires
        0 <= y <= 9999,
    ensures
        digit_at(y, 1000) == digit_at(y / 100, 10),
        digit_at(y, 100) == digit_at(y / 100, 1),
        digit_at(y, 10) == digit_at(y % 100, 10),
        digit_at(y, 1) == digit_at(y % 100, 1),
{
    assert(y / 1000 == y / 100 / 10);
    assert(y / 10 % 10 == y % 100 / 10);
    assert(y % 10 == y % 100 % 10);
}

proof fn lemma_spelled(y: int, m: int, d: int, h: int, min: int, sec: int)
    requires
        0 <= y <= 9999,
        in_calendar(y, m, d),
        0 <= h < 24,
        0 <= min < 60,
        0 <= sec < 60,
    ensures
        is_stamp_shaped(spelled(y, m, d, h, min, sec)),
        stamp_date(spelled(y, m, d, h, min, sec)) == (y, m, d),
        pair_value(spelled(y, m, d, h, min, sec), 11) == h,
        pair_value(spelled(y, m, d, h, min, sec), 14) == min,
        pair_value(spelled(y, m, d, h, min, sec), 17) == sec,
{
    lemma_year_digits(y);
    lemma_digits(y / 100);
    lemma_digits(y % 100);
    lemma_digits(m);
    lemma_digits(d);
    lemma_digits(h);
    lemma_digits(min);
    lemma_digits(sec);
}

/// An instant is written by its date and its time of day, and read by them, to
/// the second: for every day of the years that have four digits.
pub proof fn law_stamps_spell_the_instant(y: int, m: int, d: int, h: int, min: int, sec: int)
    requires
        0 <= y <= 9999,
        in_calendar(y, m, d),
        0 <= h < 24,
        0 <= min < 60,
        0 <= sec < 60,
    ensures
        ({
            let t = 86400 * day_number((y, m, d)) + 3600 * h + 60 * min + sec;
            &&& stamp(t) == spelled(y, m, d, h, min, sec)
            &&& stamp_secs(spelled(y, m, d, h, min, sec)) == Some(t)
        }),
{
    reveal(stamp_secs);
    law_days_follow_each_other(y, m, d);
    lemma_spelled(y, m, d, h, min, sec);
    lemma_writes_back(spelled(y, m, d, h, min, sec), (y, m, d), h, min, sec);
}

/// Only such a text is read: whatever is read as an instant spells a date of the
/// calendar and a time of day.
pub proof fn law_only_stamps_are_read(s: Seq<char>) -> (parts: ((int, int, int), (int, int, int)))
    requires
        stamp_secs(s) is Some,
    ensures
        ({
            let ((y, m, d), (h, min, sec)) = parts;
            &&& 0 <= y <= 9999
            &&& in_calendar(y, m, d)
            &&& 0 <= h < 24
            &&& 0 <= min < 60
            &&& 0 <= sec < 60
            &&& s == spelled(y, m, d, h, min, sec)
        }),
{
    reveal(stamp_secs);
    let (y, m, d) = stamp_date(s);
    let (h, min, sec) = (pair_value(s, 11), pair_value(s, 14), pair_value(s, 17));
    law_days_follow_each_other(y, m, d);
    lemma_pair_is_its_digits(s, s, 0);
    lemma_pair_is_its_digits(s, s, 2);
    lemma_pair_is_its_digits(s, s, 11);
    lemma_pair_is_its_digits(s, s, 14);
    lemma_pair_is_its_digits(s, s, 17);
    lemma_spelled(y, m, d, h, min, sec);
    lemma_same_parts_same_stamp(s, spelled(y, m, d, h, min, sec));
    ((y, m, d), (h, min, sec))
}

} // verus!
