//! Points in time, ranges of time, and the calendar.

use crate::text;
use crate::text::{digit_char, u64_text};
use vstd::prelude::*;
use vstd::string::*;

verus! {

/// A point in time: seconds since the epoch, and nanoseconds of the second.
#[derive(Clone, Copy, Debug, PartialEq, Eq, Structural)]
pub struct Timestamp {
    /// Seconds since the epoch.
    pub secs: i64,
    /// Nanoseconds of the second.
    pub nanos: u32,
}

/// A span of time.
#[derive(Clone, Copy, Debug, PartialEq, Eq, Structural)]
pub struct Period {
    /// Whole seconds.
    pub secs: u64,
    /// Nanoseconds of the second.
    pub nanos: u32,
}

/// A range of time, from its first moment up to its end.
#[derive(Clone, Copy, Debug, PartialEq, Eq, Structural)]
pub struct TimeRange {
    /// Where it starts.
    pub start: Timestamp,
    /// Where it ends.
    pub end: Timestamp,
}

/// A day of the proleptic Gregorian calendar.
#[derive(Clone, Copy, Debug, PartialEq, Eq, Structural)]
pub struct Date {
    /// The year; 0 is the year before year 1.
    pub year: i64,
    /// The month, from 1.
    pub month: u32,
    /// The day of the month, from 1.
    pub day: u32,
}

/// How many seconds a day has.
pub const DAY_SECONDS: i64 = 86_400;

/// Whether a year has a 29th of February.
pub open spec fn leap(year: int) -> bool {
    year % 4 == 0 && (year % 100 != 0 || year % 400 == 0)
}

/// How many days a year has.
pub open spec fn year_days(year: int) -> int {
    if leap(year) {
        366
    } else {
        365
    }
}

/// How many days a month has.
pub open spec fn month_days(year: int, month: int) -> int {
    if month == 2 {
        if leap(year) {
            29
        } else {
            28
        }
    } else if month == 4 || month == 6 || month == 9 || month == 11 {
        30
    } else {
        31
    }
}

/// How many days lie between the epoch and the first day of a year.
pub open spec fn days_before_year(year: int) -> int {
    365 * (year - 1) + (year - 1) / 4 - (year - 1) / 100 + (year - 1) / 400 - 719_162
}

/// How many days of a year lie before the first day of a month.
pub open spec fn days_before_month(year: int, month: int) -> int
    decreases month,
{
    if month <= 1 {
        0
    } else {
        days_before_month(year, month - 1) + month_days(year, month - 1)
    }
}

impl Date {
    /// Whether the calendar has this day.
    pub open spec fn valid(self) -> bool {
        &&& 1 <= self.month <= 12
        &&& 1 <= self.day <= month_days(self.year as int, self.month as int)
    }

    /// How many days lie between the epoch and this day.
    pub open spec fn number(self) -> int {
        days_before_year(self.year as int) + days_before_month(
            self.year as int,
            self.month as int,
        ) + self.day - 1
    }
}

proof fn lemma_year_step(year: int)
    ensures
        days_before_year(year + 1) == days_before_year(year) + year_days(year),
{
}

proof fn lemma_cycle(k: int, r: int)
    ensures
        days_before_year(400 * k + 1 + r) == 146_097 * k + days_before_year(1 + r),
{
    assert((400 * k + r) / 4 == 100 * k + r / 4);
    assert((400 * k + r) / 100 == 4 * k + r / 100);
    assert((400 * k + r) / 400 == k + r / 400);
}

proof fn lemma_months(year: int)
    ensures
        days_before_month(year, 13) == year_days(year),
{
    reveal_with_fuel(days_before_month, 13);
}

proof fn lemma_months_grow(year: int, a: int, b: int)
    requires
        1 <= a <= b,
    ensures
        days_before_month(year, a) <= days_before_month(year, b),
        a < b ==> days_before_month(year, a) + month_days(year, a) <= days_before_month(year, b),
    decreases b - a,
{
    if a < b {
        lemma_months_grow(year, a, b - 1);
    }
}

proof fn lemma_years_grow(a: int, b: int)
    requires
        a <= b,
    ensures
        days_before_year(a) <= days_before_year(b),
        a < b ==> days_before_year(a) + year_days(a) <= days_before_year(b),
    decreases b - a,
{
    if a < b {
        lemma_years_grow(a, b - 1);
        lemma_year_step(b - 1);
    }
}

/// No two days of the calendar have the same number.
pub proof fn law_date_unique(a: Date, b: Date)
    requires
        a.valid(),
        b.valid(),
        a.number() == b.number(),
    ensures
        a == b,
{
    let (ya, yb) = (a.year as int, b.year as int);
    lemma_months(ya);
    lemma_months(yb);
    lemma_months_grow(ya, a.month as int, 13);
    lemma_months_grow(yb, b.month as int, 13);
    lemma_months_grow(ya, 1, a.month as int);
    lemma_months_grow(yb, 1, b.month as int);
    if ya < yb {
        lemma_years_grow(ya, yb);
    } else if yb < ya {
        lemma_years_grow(yb, ya);
    }
    if a.month < b.month {
        lemma_months_grow(ya, a.month as int, b.month as int);
    } else if b.month < a.month {
        lemma_months_grow(ya, b.month as int, a.month as int);
    }
}

/// The day of the calendar with a given number.
pub open spec fn date_of(number: int) -> Date {
    choose|d: Date| d.valid() && #[trigger] d.number() == number
}

fn is_leap(year: i64) -> (r: bool)
    ensures
        r == leap(year as int),
{
    let by4: Option<i64> = year.checked_rem_euclid(4);
    let by100: Option<i64> = year.checked_rem_euclid(100);
    let by400: Option<i64> = year.checked_rem_euclid(400);
    by4 == Some(0i64) && (by100 != Some(0i64) || by400 == Some(0i64))
}

/// How many days a month has.
pub fn days_in_month(year: i64, month: u32) -> (r: u32)
    ensures
        r == month_days(year as int, month as int),
{
    if month == 2 {
        if is_leap(year) {
            29
        } else {
            28
        }
    } else if month == 4 || month == 6 || month == 9 || month == 11 {
        30
    } else {
        31
    }
}

impl Timestamp {
    /// The number of the day in which this moment lies.
    pub open spec fn day_number(self) -> int {
        self.secs as int / 86_400
    }

    /// Whether this moment comes before another.
    pub open spec fn precedes(self, other: Timestamp) -> bool {
        self.secs < other.secs || (self.secs == other.secs && self.nanos < other.nanos)
    }

    /// The number of the day in which this moment lies.
    pub fn day(&self) -> (r: i64)
        ensures
            r == self.day_number(),
    {
        match self.secs.checked_div_euclid(DAY_SECONDS) {
            Some(day) => day,
            None => 0,
        }
    }

    /// Whether this moment comes before another.
    pub fn is_before(&self, other: Timestamp) -> (r: bool)
        ensures
            r == self.precedes(other),
    {
        self.secs < other.secs || (self.secs == other.secs && self.nanos < other.nanos)
    }

    /// The day in which this moment lies, in UTC.
    pub fn date(&self) -> (r: Date)
        ensures
            r.valid(),
            r.number() == self.day_number(),
            r == date_of(self.day_number()),
    {
        date_on(self.day())
    }
}

/// The day with a given number. The number lies in what seconds since the
/// epoch reach.
pub fn date_on(number: i64) -> (r: Date)
    requires
        -1_000_000_000_000_000 <= number <= 1_000_000_000_000_000,
    ensures
        r.valid(),
        r.number() == number,
        r == date_of(number as int),
{
    let shifted: i64 = number + 719_162;
    let cycle: i64 = match shifted.checked_div_euclid(146_097) {
        Some(q) => q,
        None => 0,
    };
    assert(cycle == shifted as int / 146_097);
    let mut year: i64 = 400 * cycle + 1;
    let mut rest: i64 = shifted - 146_097 * cycle;
    proof {
        lemma_cycle(cycle as int, 0);
    }
    let mut counted: u32 = 0;
    while rest >= 365 && (rest >= 366 || !is_leap(year))
        invariant
            0 <= rest,
            counted <= 400,
            rest + 365 * counted <= 146_097,
            -4_000_000_000_000 <= 400 * cycle <= 4_000_000_000_000,
            year == 400 * cycle + 1 + counted,
            days_before_year(year as int) + rest == number,
        decreases rest,
    {
        proof {
            lemma_year_step(year as int);
        }
        if is_leap(year) {
            rest = rest - 366;
        } else {
            rest = rest - 365;
        }
        counted += 1;
        year += 1;
    }
    assert(rest < year_days(year as int));
    let mut month: u32 = 1;
    proof {
        lemma_months(year as int);
    }
    while month < 12 && rest >= days_in_month(year, month) as i64
        invariant
            1 <= month <= 12,
            0 <= rest < 366,
            days_before_year(year as int) + days_before_month(year as int, month as int) + rest
                == number,
            days_before_month(year as int, month as int) + rest < year_days(year as int),
        decreases 12 - month,
    {
        rest = rest - days_in_month(year, month) as i64;
        month += 1;
    }
    proof {
        if month == 12 {
            lemma_months(year as int);
            assert(days_before_month(year as int, 13) == days_before_month(year as int, 12)
                + month_days(year as int, 12));
        }
    }
    let r = Date { year, month, day: (rest + 1) as u32 };
    assert(r.number() == number);
    proof {
        law_date_unique(r, date_of(number as int));
    }
    r
}

/// The last two decimal digits of a number.
pub open spec fn two_digits(n: nat) -> Seq<char> {
    seq![text::digit(n / 10 % 10), text::digit(n % 10)]
}

/// A year as dates show it: four digits, and from ten thousand years on, or
/// before the year 0, at least four digits behind a sign.
pub open spec fn year_text(year: int) -> Seq<char> {
    let size = if year < 0 {
        -year
    } else {
        year
    };
    let digits = if size >= 10_000 {
        text::decimal(size as nat)
    } else {
        two_digits(size as nat / 100) + two_digits(size as nat)
    };
    if year < 0 {
        seq!['-'] + digits
    } else if size >= 10_000 {
        seq!['+'] + digits
    } else {
        digits
    }
}

impl Date {
    /// A day in the form `YYYY-MM-DD`.
    pub open spec fn text(self) -> Seq<char> {
        year_text(self.year as int) + seq!['-'] + two_digits(self.month as nat) + seq!['-']
            + two_digits(self.day as nat)
    }

    /// The day in the form `YYYY-MM-DD`.
    pub fn as_text(&self) -> (r: String)
        requires
            self.valid(),
        ensures
            r@ == self.text(),
    {
        let mut out: String = String::new();
        let size: u64 = if self.year < 0 {
            (-(self.year as i128)) as u64
        } else {
            self.year as u64
        };
        if self.year < 0 {
            out.push('-');
        } else if size >= 10_000 {
            out.push('+');
        }
        if size >= 10_000 {
            let digits: String = u64_text(size);
            out.append(digits.as_str());
        } else {
            push_two(&mut out, size / 100);
            push_two(&mut out, size);
        }
        assert(out@ == year_text(self.year as int));
        out.push('-');
        push_two(&mut out, self.month as u64);
        out.push('-');
        push_two(&mut out, self.day as u64);
        assert(out@ == self.text());
        out
    }
}

fn push_two(out: &mut String, n: u64)
    ensures
        final(out)@ == old(out)@ + two_digits(n as nat),
{
    out.push(digit_char(n / 10 % 10));
    out.push(digit_char(n % 10));
    assert(out@ == old(out)@ + two_digits(n as nat));
}

/// Days are counted without a gap from the first of January 1970: the day behind a
/// day is the next one of its month, or the first of the next month, or the first
/// of January behind the thirty-first of December.
pub proof fn law_days_are_counted_on(d: Date)
    requires
        d.valid(),
        d.year < i64::MAX,
    ensures
        (Date { year: 1970, month: 1, day: 1 }).number() == 0,
        d.day < month_days(d.year as int, d.month as int) ==> (Date {
            day: (d.day + 1) as u32,
            ..d
        }).number() == d.number() + 1,
        d.day == month_days(d.year as int, d.month as int) && d.month < 12 ==> (Date {
            month: (d.month + 1) as u32,
            day: 1,
            ..d
        }).number() == d.number() + 1,
        d.month == 12 && d.day == 31 ==> (Date {
            year: (d.year + 1) as i64,
            month: 1,
            day: 1,
        }).number() == d.number() + 1,
{
    lemma_year_step(d.year as int);
    lemma_months(d.year as int);
    if d.month == 12 {
        assert(days_before_month(d.year as int, 13) == days_before_month(d.year as int, 12)
            + month_days(d.year as int, 12));
    }
}

/// February has twenty-nine days every fourth year, but of the full centuries only
/// every fourth; April, June, September and November have thirty.
pub proof fn law_months_have_their_days(year: int)
    ensures
        year % 400 == 0 ==> month_days(year, 2) == 29,
        year % 400 != 0 && year % 100 == 0 ==> month_days(year, 2) == 28,
        year % 100 != 0 && year % 4 == 0 ==> month_days(year, 2) == 29,
        year % 4 != 0 ==> month_days(year, 2) == 28,
        month_days(year, 4) == 30 && month_days(year, 6) == 30 && month_days(year, 9) == 30
            && month_days(year, 11) == 30,
        month_days(year, 1) == 31 && month_days(year, 3) == 31 && month_days(year, 5) == 31
            && month_days(year, 7) == 31 && month_days(year, 8) == 31 && month_days(year, 10) == 31
            && month_days(year, 12) == 31,
{
}

/// The day of an instant holds it: it begins no later, and ends after it.
pub proof fn law_day_holds_the_instant(t: Timestamp)
    ensures
        t.day_number() * 86_400 <= t.secs < (t.day_number() + 1) * 86_400,
{
}

/// Of two instants one precedes the other, by its second and then by its part of
/// the second, and no instant precedes itself.
pub proof fn law_instants_are_ordered(a: Timestamp, b: Timestamp, c: Timestamp)
    ensures
        !a.precedes(a),
        a != b ==> a.precedes(b) != b.precedes(a),
        a.precedes(b) && b.precedes(c) ==> a.precedes(c),
        a.secs < b.secs ==> a.precedes(b),
        a.secs == b.secs && a.nanos < b.nanos ==> a.precedes(b),
{
}

/// A day is written as year, month and day, with hyphens between: the year with
/// four digits where it has no more, month and day with two.
pub proof fn law_date_is_written_in_order(d: Date)
    requires
        d.valid(),
        0 <= d.year <= 9999,
    ensures
        d.text().len() == 10,
        text::number_of(d.text().subrange(0, 4)) == d.year,
        d.text()[4] == '-',
        text::number_of(d.text().subrange(5, 7)) == d.month,
        d.text()[7] == '-',
        text::number_of(d.text().subrange(8, 10)) == d.day,
{
    let s = d.text();
    lemma_two_digits(d.month as nat);
    lemma_two_digits(d.day as nat);
    lemma_two_digits(d.year as nat / 100);
    let y = two_digits(d.year as nat / 100) + two_digits(d.year as nat);
    assert(s.subrange(0, 4) =~= y);
    assert(s.subrange(5, 7) =~= two_digits(d.month as nat));
    assert(s.subrange(8, 10) =~= two_digits(d.day as nat));
    let a = text::digit(d.year as nat / 10 % 10);
    let b = text::digit(d.year as nat % 10);
    assert(y.drop_last() =~= two_digits(d.year as nat / 100).push(a));
    assert(y.drop_last().drop_last() =~= two_digits(d.year as nat / 100));
    assert(y.last() == b);
    assert(y.drop_last().last() == a);
    assert(a as int == 48 + d.year as nat / 10 % 10);
    assert(b as int == 48 + d.year as nat % 10);
    assert(text::number_of(y.drop_last()) == 10 * (d.year as int / 100) + d.year as int / 10 % 10);
    assert(text::number_of(y) == d.year);
}

proof fn lemma_two_digits(n: nat)
    requires
        n < 100,
    ensures
        text::number_of(two_digits(n)) == n,
{
    let s = two_digits(n);
    assert(s.drop_last() =~= seq![text::digit(n / 10 % 10)]);
    assert(s.drop_last().drop_last() =~= Seq::<char>::empty());
    assert(s.last() == text::digit(n % 10));
    assert(s.drop_last().last() == text::digit(n / 10 % 10));
    assert(s.last() as int == 48 + n % 10);
    assert(s.drop_last().last() as int == 48 + n / 10 % 10);
    reveal_with_fuel(text::number_of, 3);
}

/// A year before the first has a minus sign in front, and one beyond four digits a
/// plus sign.
pub proof fn law_far_years_have_a_sign(year: int)
    ensures
        year < 0 ==> year_text(year)[0] == '-',
        year > 9999 ==> year_text(year) == seq!['+'] + text::decimal(year as nat),
        year < -9999 ==> year_text(year) == seq!['-'] + text::decimal((-year) as nat),
        0 <= year <= 9999 ==> year_text(year).len() == 4,
        -9999 <= year < 0 ==> year_text(year) == seq!['-'] + year_text(-year),
{
}

} // verus!
