//! Timestamps of the form `2026-01-05T09:10:11Z`, and the calendar.
use vstd::prelude::*;

verus! {

/// A number that a machine integer of 64 bits can hold.
pub open spec fn fits(x: int) -> bool {
    i64::MIN <= x <= i64::MAX
}

/// `a` divided by `n`, rounded towards zero.
pub open spec fn quotient(a: int, n: int) -> int {
    if a >= 0 {
        a / n
    } else {
        -((-a) / n)
    }
}

fn divide(a: i64, n: i64) -> (q: i64)
    requires
        n > 0,
    ensures
        q == quotient(a as int, n as int),
        a >= 0 ==> 0 <= q <= a,
        a < 0 ==> a <= q <= 0,
{
    proof {
        let size = if a >= 0 {
            a as int
        } else {
            -a
        };
        assert(0 <= size / n as int <= size) by (nonlinear_arith)
            requires
                size >= 0,
                n > 0,
        ;
    }
    if a >= 0 {
        a / n
    } else if a == i64::MIN {
        proof {
            vstd::arithmetic::div_mod::lemma_div_plus_one(-(a + n), n as int);
        }
        -1 - (-(a + n)) / n
    } else {
        -((-a) / n)
    }
}

/// What a digit at position `i` counts. Bytes above the digits count on.
pub open spec fn digit(b: Seq<u8>, i: int) -> int {
    b[i] - 0x30
}

/// The two digits at `i` as a number.
pub open spec fn two_digits(b: Seq<u8>, i: int) -> int {
    digit(b, i) * 10 + digit(b, i + 1)
}

/// The four digits at `i` as a number.
pub open spec fn four_digits(b: Seq<u8>, i: int) -> int {
    digit(b, i) * 1000 + digit(b, i + 1) * 100 + digit(b, i + 2) * 10 + digit(b, i + 3)
}

/// None of the `n` bytes from `i` on lies below the digits.
pub open spec fn digits_from(b: Seq<u8>, i: int, n: int) -> bool {
    forall|j: int| i <= j < i + n ==> (#[trigger] b[j]) >= 0x30
}

/// Reads two digits.
pub fn d2(b: &[u8], i: usize) -> (value: i64)
    requires
        i + 2 <= b.len(),
        digits_from(b@, i as int, 2),
    ensures
        value == two_digits(b@, i as int),
        0 <= value <= 2277,
{
    (b[i] - 0x30) as i64 * 10 + (b[i + 1] - 0x30) as i64
}

/// Reads four digits.
pub fn d4(b: &[u8], i: usize) -> (value: i64)
    requires
        i + 4 <= b.len(),
        digits_from(b@, i as int, 4),
    ensures
        value == four_digits(b@, i as int),
        0 <= value <= 229_977,
{
    (b[i] - 0x30) as i64 * 1000 + (b[i + 1] - 0x30) as i64 * 100 + (b[i + 2] - 0x30) as i64 * 10 + (
    b[i + 3] - 0x30) as i64
}

/// What month `m` adds to the day of the week.
pub open spec fn month_shift(m: int) -> int {
    seq![0, 3, 2, 5, 0, 3, 5, 1, 4, 6, 2, 4][m - 1]
}

/// The day of the week by Sakamoto's formula, Sunday being 0.
pub open spec fn weekday(y: int, m: int, d: int) -> int {
    let y = if m < 3 {
        y - 1
    } else {
        y
    };
    (y + quotient(y, 4) - quotient(y, 100) + quotient(y, 400) + month_shift(m) + d) % 7
}

/// No step of computing the day of the week leaves the range of 64 bits.
pub open spec fn weekday_fits(y: int, m: int, d: int) -> bool {
    let y = if m < 3 {
        y - 1
    } else {
        y
    };
    let quarters = y + quotient(y, 4);
    let centuries = quarters - quotient(y, 100);
    let eras = centuries + quotient(y, 400);
    let months = eras + month_shift(m);
    fits(y) && fits(quarters) && fits(centuries) && fits(eras) && fits(months) && fits(months + d)
}

/// The number of days from 1970-01-01 by Hinnant's formula: years start in
/// March, and 400 of them make an era.
pub open spec fn days(y: int, m: int, d: int) -> int {
    let y = march_year(y, m);
    y / 400 * 146_097 + day_of_era(y % 400, m, d) - 719_468
}

/// The year in which the year of `y` and `m` started, when years start in March.
pub open spec fn march_year(y: int, m: int) -> int {
    if m <= 2 {
        y - 1
    } else {
        y
    }
}

/// How many months have passed since March.
pub open spec fn march_month(m: int) -> int {
    if m > 2 {
        m - 3
    } else {
        m + 9
    }
}

/// How many days have passed since the first of March.
pub open spec fn day_of_year(m: int, d: int) -> int {
    quotient(153 * march_month(m) + 2, 5) + d - 1
}

/// How many days have passed since the start of an era, in its year `year`.
pub open spec fn day_of_era(year: int, m: int, d: int) -> int {
    year * 365 + year / 4 - year / 100 + day_of_year(m, d)
}

/// No step of counting the days leaves the range of 64 bits.
pub open spec fn days_fit(y: int, m: int, d: int) -> bool {
    let month = march_month(m);
    let y = march_year(y, m);
    let days_of_months = quotient(153 * month + 2, 5);
    let year_days = day_of_era(y % 400, m, d);
    let era_days = y / 400 * 146_097;
    &&& fits(y)
    &&& y < 0 ==> fits(y - 399)
    &&& fits(month)
    &&& fits(153 * month)
    &&& fits(153 * month + 2)
    &&& fits(days_of_months + d)
    &&& fits(days_of_months + d - 1)
    &&& fits(year_days)
    &&& fits(era_days)
    &&& fits(era_days + year_days)
    &&& fits(era_days + year_days - 719_468)
}

/// The Gregorian rule.
pub open spec fn leap(y: int) -> bool {
    y % 4 == 0 && (y % 100 != 0 || y % 400 == 0)
}

/// How many days a month has.
pub open spec fn month_length(y: int, m: int) -> int {
    if m == 2 {
        if leap(y) {
            29
        } else {
            28
        }
    } else if m == 4 || m == 6 || m == 9 || m == 11 {
        30
    } else {
        31
    }
}

/// A day of the calendar.
pub open spec fn is_date(y: int, m: int, d: int) -> bool {
    1 <= m <= 12 && 1 <= d <= month_length(y, m)
}

/// The day that follows.
pub open spec fn next_day(y: int, m: int, d: int) -> (int, int, int) {
    if d < month_length(y, m) {
        (y, m, d + 1)
    } else if m < 12 {
        (y, m + 1, 1)
    } else {
        (y + 1, 1, 1)
    }
}

/// The number of days is zero on 1970-01-01, and each day counts one more than
/// the day before it.
pub proof fn lemma_days(y: int, m: int, d: int)
    requires
        is_date(y, m, d),
    ensures
        days(1970, 1, 1) == 0,
        ({
            let (ny, nm, nd) = next_day(y, m, d);
            is_date(ny, nm, nd) && days(ny, nm, nd) == days(y, m, d) + 1
        }),
{
}

/// The day of the week goes on by one each day, and 1970-01-01 was a Thursday.
/// This holds from the first of March of the year 0 on.
pub proof fn lemma_weekday(y: int, m: int, d: int)
    requires
        1 <= m <= 12,
        y > 0 || (y == 0 && m >= 3),
    ensures
        weekday(y, m, d) == (days(y, m, d) + 4) % 7,
{
    let march = if m < 3 {
        y - 1
    } else {
        y
    };
    let era = march / 400;
    let year = march % 400;
    assert(march / 4 == 100 * era + year / 4);
    assert(march / 100 == 4 * era + year / 100);
    let month = if m > 2 {
        m - 3
    } else {
        m + 9
    };
    let gap = month_shift(m) - quotient(153 * month + 2, 5) + 719_465;
    assert(gap % 7 == 0) by {
        lemma_month_shift(m);
    }
    let weeks = gap / 7 - 20_800 * era - 52 * year;
    let sum = march + march / 4 - march / 100 + march / 400 + month_shift(m) + d;
    assert(sum == 7 * weeks + (days(y, m, d) + 4));
    vstd::arithmetic::div_mod::lemma_mod_multiples_vanish(weeks, days(y, m, d) + 4, 7);
}

proof fn lemma_month_shift(m: int)
    requires
        1 <= m <= 12,
    ensures
        (month_shift(m) - quotient(
            153 * (if m > 2 {
                m - 3
            } else {
                m + 9
            }) + 2,
            5,
        ) + 719_465) % 7 == 0,
{
    assert(m == 1 || m == 2 || m == 3 || m == 4 || m == 5 || m == 6 || m == 7 || m == 8 || m == 9
        || m == 10 || m == 11 || m == 12);
}

/// Computes the day of the week. Sunday is 0, Saturday 6.
pub fn sakamoto(y: i64, m: i64, d: i64) -> (w: i64)
    requires
        1 <= m <= 12,
        weekday_fits(y as int, m as int, d as int),
    ensures
        w == weekday(y as int, m as int, d as int),
        0 <= w <= 6,
{
    let shifts: [i64; 12] = [0, 3, 2, 5, 0, 3, 5, 1, 4, 6, 2, 4];
    let y: i64 = if m < 3 {
        y - 1
    } else {
        y
    };
    let shift: i64 = shifts[(m - 1) as usize];
    let sum: i64 = y + divide(y, 4) - divide(y, 100) + divide(y, 400) + shift + d;
    remainder7(sum)
}

/// The remainder of a division by seven, from 0 to 6.
fn remainder7(x: i64) -> (r: i64)
    ensures
        r == x as int % 7,
        0 <= r <= 6,
{
    if x >= 0 {
        x % 7
    } else {
        let r: i64 = (-(x + 1)) % 7;
        6 - r
    }
}

proof fn lemma_era(y: int)
    ensures
        quotient(
            if y >= 0 {
                y
            } else {
                y - 399
            },
            400,
        ) == y / 400,
        y - y / 400 * 400 == y % 400,
        0 <= y % 400 < 400,
{
}

/// Computes the number of days from 1970-01-01.
pub fn days_from_civil(y: i64, m: i64, d: i64) -> (n: i64)
    requires
        days_fit(y as int, m as int, d as int),
    ensures
        n == days(y as int, m as int, d as int),
{
    let y: i64 = if m <= 2 {
        y - 1
    } else {
        y
    };
    let era: i64 = divide(
        if y >= 0 {
            y
        } else {
            y - 399
        },
        400,
    );
    proof {
        lemma_era(y as int);
    }
    let year: i64 = y - era * 400;
    let month: i64 = if m > 2 {
        m - 3
    } else {
        m + 9
    };
    let day: i64 = divide(153 * month + 2, 5) + d - 1;
    let day_of_the_era: i64 = year * 365 + year / 4 - year / 100 + day;
    era * 146_097 + day_of_the_era - 719_468
}

/// No byte of a timestamp lies below the digits where digits are expected.
pub open spec fn readable(ts: Seq<u8>) -> bool {
    &&& ts.len() == 20
    &&& digits_from(ts, 0, 4)
    &&& digits_from(ts, 5, 2)
    &&& digits_from(ts, 8, 2)
    &&& digits_from(ts, 11, 2)
    &&& digits_from(ts, 14, 2)
}

/// The `n` bytes from `i` on are digits.
pub open spec fn decimal_from(b: Seq<u8>, i: int, n: int) -> bool {
    forall|j: int| i <= j < i + n ==> 0x30 <= (#[trigger] b[j]) <= 0x39
}

/// A timestamp that can be read: digits where they are expected, and a month that is
/// one of the twelve.
pub open spec fn well_formed(ts: Seq<u8>) -> bool {
    &&& ts.len() == 20
    &&& decimal_from(ts, 0, 4)
    &&& decimal_from(ts, 5, 2)
    &&& decimal_from(ts, 8, 2)
    &&& decimal_from(ts, 11, 2)
    &&& decimal_from(ts, 14, 2)
    &&& 1 <= two_digits(ts, 5) <= 12
}

fn check_decimal(b: &[u8], i: usize, n: usize) -> (ok: bool)
    requires
        i + n <= b.len(),
    ensures
        ok == decimal_from(b@, i as int, n as int),
{
    for j in i..i + n
        invariant
            i + n <= b.len(),
            forall|k: int| i <= k < j ==> 0x30 <= (#[trigger] b@[k]) <= 0x39,
    {
        if b[j] < 0x30 || b[j] > 0x39 {
            return false;
        }
    }
    true
}

/// Whether a timestamp can be read.
pub fn is_well_formed(ts: &[u8; 20]) -> (ok: bool)
    ensures
        ok == well_formed(ts@),
        ok ==> readable(ts@),
{
    if !(check_decimal(ts, 0, 4) && check_decimal(ts, 5, 2) && check_decimal(ts, 8, 2)
        && check_decimal(ts, 11, 2) && check_decimal(ts, 14, 2)) {
        return false;
    }
    let month = d2(ts, 5);
    1 <= month && month <= 12
}

fn check_digits(b: &[u8], i: usize, n: usize) -> (ok: bool)
    requires
        i + n <= b.len(),
    ensures
        ok == digits_from(b@, i as int, n as int),
{
    for j in i..i + n
        invariant
            i + n <= b.len(),
            forall|k: int| i <= k < j ==> (#[trigger] b@[k]) >= 0x30,
    {
        if b[j] < 0x30 {
            return false;
        }
    }
    true
}

/// Whether no byte of a timestamp lies below the digits where digits are expected.
pub fn is_readable(ts: &[u8; 20]) -> (ok: bool)
    ensures
        ok == readable(ts@),
{
    check_digits(ts, 0, 4) && check_digits(ts, 5, 2) && check_digits(ts, 8, 2) && check_digits(
        ts,
        11,
        2,
    ) && check_digits(ts, 14, 2)
}

/// The parts of a timestamp down to the minute.
#[derive(Clone, Copy, Debug)]
pub struct ParsedTs {
    pub year: i64,
    pub month: i64,
    pub day: i64,
    pub hour: i64,
    pub minute: i64,
}

/// The parts of the timestamp `ts`.
pub open spec fn parts(ts: Seq<u8>) -> ParsedTs {
    ParsedTs {
        year: four_digits(ts, 0) as i64,
        month: two_digits(ts, 5) as i64,
        day: two_digits(ts, 8) as i64,
        hour: two_digits(ts, 11) as i64,
        minute: two_digits(ts, 14) as i64,
    }
}

impl ParsedTs {
    /// The parts are those that four and two digits can make.
    pub open spec fn small(&self) -> bool {
        &&& 0 <= self.year <= 229_977
        &&& 0 <= self.month <= 2277
        &&& 0 <= self.day <= 2277
        &&& 0 <= self.hour <= 2277
        &&& 0 <= self.minute <= 2277
    }

    /// The number of days can be computed.
    pub open spec fn days_fit(&self) -> bool {
        days_fit(self.year as int, self.month as int, self.day as int)
    }

    /// The minutes from midnight can be computed.
    pub open spec fn clock_fits(&self) -> bool {
        fits(self.hour * 60) && fits(self.clock())
    }

    /// The minutes from 1970-01-01 00:00 can be computed.
    pub open spec fn minutes_fit(&self) -> bool {
        &&& self.days_fit()
        &&& self.clock_fits()
        &&& fits(days(self.year as int, self.month as int, self.day as int) * 1440)
        &&& fits(self.minutes())
    }

    /// Whatever was read can be computed with.
    pub proof fn lemma_small(&self)
        requires
            self.small(),
        ensures
            self.minutes_fit(),
            -1_000_000_000_000 <= self.minutes() <= 1_000_000_000_000,
            1 <= self.month <= 12 ==> weekday_fits(
                self.year as int,
                self.month as int,
                self.day as int,
            ),
    {
    }

    /// Minutes from midnight.
    pub open spec fn clock(&self) -> int {
        self.hour * 60 + self.minute
    }

    /// Minutes from 1970-01-01 00:00.
    pub open spec fn minutes(&self) -> int {
        days(self.year as int, self.month as int, self.day as int) * 1440 + self.clock()
    }

    /// Reads a timestamp.
    pub fn from_iso(ts: &[u8; 20]) -> (t: Self)
        requires
            readable(ts@),
        ensures
            t == parts(ts@),
            t.small(),
    {
        ParsedTs {
            year: d4(ts, 0),
            month: d2(ts, 5),
            day: d2(ts, 8),
            hour: d2(ts, 11),
            minute: d2(ts, 14),
        }
    }

    /// Whether two timestamps have the same date.
    pub fn same_date(self, other: ParsedTs) -> (same: bool)
        ensures
            same == on_same_date(self, other),
    {
        self.year == other.year && self.month == other.month && self.day == other.day
    }

    /// Minutes from midnight.
    pub fn minute_of_day(self) -> (n: i64)
        requires
            self.clock_fits(),
        ensures
            n == self.clock(),
    {
        self.hour * 60 + self.minute
    }

    /// Days from 1970-01-01.
    pub fn days_since_epoch(self) -> (n: i64)
        requires
            self.days_fit(),
        ensures
            n == days(self.year as int, self.month as int, self.day as int),
    {
        days_from_civil(self.year, self.month, self.day)
    }

    /// Minutes from 1970-01-01 00:00.
    pub fn total_minutes(self) -> (n: i64)
        requires
            self.minutes_fit(),
        ensures
            n == self.minutes(),
    {
        self.days_since_epoch() * 1440 + self.minute_of_day()
    }

    /// The day of the week. Monday is 0, Sunday 6.
    pub fn weekday_mon0(self) -> (w: i64)
        requires
            1 <= self.month <= 12,
            weekday_fits(self.year as int, self.month as int, self.day as int),
        ensures
            w == (weekday(self.year as int, self.month as int, self.day as int) + 6) % 7,
            0 <= w <= 6,
    {
        (sakamoto(self.year, self.month, self.day) + 6) % 7
    }
}

/// Two timestamps have the same date.
pub open spec fn on_same_date(a: ParsedTs, b: ParsedTs) -> bool {
    a.year == b.year && a.month == b.month && a.day == b.day
}

/// Minutes from `last` to `current`.
pub fn minutes_diff(current: ParsedTs, last: ParsedTs) -> (n: i64)
    requires
        if on_same_date(current, last) {
            current.clock_fits() && last.clock_fits()
        } else {
            current.minutes_fit() && last.minutes_fit()
        },
        fits(current.minutes() - last.minutes()),
    ensures
        n == current.minutes() - last.minutes(),
{
    if current.same_date(last) {
        current.minute_of_day() - last.minute_of_day()
    } else {
        current.total_minutes() - last.total_minutes()
    }
}

/// The same time on the day that follows is 1440 minutes later.
pub proof fn lemma_next_day_minutes(t: ParsedTs, next: ParsedTs)
    requires
        is_date(t.year as int, t.month as int, t.day as int),
        next_day(t.year as int, t.month as int, t.day as int) == (
            next.year as int,
            next.month as int,
            next.day as int,
        ),
        next.hour == t.hour,
        next.minute == t.minute,
    ensures
        next.minutes() - t.minutes() == 1440,
{
    lemma_days(t.year as int, t.month as int, t.day as int);
}

/// A number below ten as a digit.
pub open spec fn digit_byte(n: int) -> u8 {
    (0x30 + n) as u8
}

/// A date and a time of day as a timestamp: `YYYY-MM-DDThh:mm:ssZ`.
pub open spec fn written(y: int, m: int, d: int, hour: int, minute: int, second: int) -> Seq<u8> {
    seq![
        digit_byte(y / 1000),
        digit_byte(y / 100 % 10),
        digit_byte(y / 10 % 10),
        digit_byte(y % 10),
        0x2d,
        digit_byte(m / 10),
        digit_byte(m % 10),
        0x2d,
        digit_byte(d / 10),
        digit_byte(d % 10),
        0x54,
        digit_byte(hour / 10),
        digit_byte(hour % 10),
        0x3a,
        digit_byte(minute / 10),
        digit_byte(minute % 10),
        0x3a,
        digit_byte(second / 10),
        digit_byte(second % 10),
        0x5a,
    ]
}

/// Every date of the calendar with a time of day can be written as a timestamp, and is
/// read back from it.
pub proof fn lemma_written_is_read(
    y: int,
    m: int,
    d: int,
    hour: int,
    minute: int,
    second: int,
)
    requires
        0 <= y <= 9999,
        is_date(y, m, d),
        0 <= hour <= 23,
        0 <= minute <= 59,
        0 <= second <= 59,
    ensures
        ({
            let ts = written(y, m, d, hour, minute, second);
            &&& well_formed(ts)
            &&& readable(ts)
            &&& parts(ts).year == y
            &&& parts(ts).month == m
            &&& parts(ts).day == d
            &&& parts(ts).hour == hour
            &&& parts(ts).minute == minute
        }),
{
    let ts = written(y, m, d, hour, minute, second);
    lemma_four_digits_written(ts, 0, y);
    lemma_two_digits_written(ts, 5, m);
    lemma_two_digits_written(ts, 8, d);
    lemma_two_digits_written(ts, 11, hour);
    lemma_two_digits_written(ts, 14, minute);
}

/// Two digits are read back as they were written.
proof fn lemma_two_digits_written(ts: Seq<u8>, at: int, n: int)
    requires
        0 <= n <= 99,
        ts[at] == digit_byte(n / 10),
        ts[at + 1] == digit_byte(n % 10),
    ensures
        two_digits(ts, at) == n,
        decimal_from(ts, at, 2),
{
}

/// Four digits are read back as they were written.
proof fn lemma_four_digits_written(ts: Seq<u8>, at: int, n: int)
    requires
        0 <= n <= 9999,
        ts[at] == digit_byte(n / 1000),
        ts[at + 1] == digit_byte(n / 100 % 10),
        ts[at + 2] == digit_byte(n / 10 % 10),
        ts[at + 3] == digit_byte(n % 10),
    ensures
        four_digits(ts, at) == n,
        decimal_from(ts, at, 4),
{
    let tens = n / 10;
    let hundreds = tens / 10;
    let thousands = hundreds / 10;
    assert(n / 100 == hundreds);
    assert(n / 1000 == thousands);
    assert(digit(ts, at) == thousands && digit(ts, at + 1) == hundreds % 10);
    assert(digit(ts, at + 2) == tens % 10 && digit(ts, at + 3) == n % 10);
    assert(n == 10 * tens + n % 10);
    assert(tens == 10 * hundreds + tens % 10);
    assert(hundreds == 10 * thousands + hundreds % 10);
}

/// Position `j` of a timestamp holds a digit that is read.
pub open spec fn is_read_place(j: int) -> bool {
    0 <= j < 4 || 5 <= j < 7 || 8 <= j < 10 || 11 <= j < 13 || 14 <= j < 16
}

/// A timestamp is taken for well-formed exactly where all bytes that are read are
/// digits and the month that they write is one from 1 to 12. Nothing else about it
/// matters.
pub proof fn lemma_well_formed(ts: Seq<u8>)
    requires
        ts.len() == 20,
    ensures
        well_formed(ts) <==> (forall|j: int| #[trigger]
            is_read_place(j) ==> 0x30 <= ts[j] <= 0x39) && 1 <= 10 * (ts[5] - 0x30) + (ts[6] - 0x30)
            <= 12,
{
    if forall|j: int| #[trigger] is_read_place(j) ==> 0x30 <= ts[j] <= 0x39 {
        assert forall|j: int|
            0 <= j < 4 || 5 <= j < 7 || 8 <= j < 10 || 11 <= j < 13 || 14 <= j < 16 implies 0x30
            <= #[trigger] ts[j] <= 0x39 by {
            assert(is_read_place(j));
        }
        assert(decimal_from(ts, 0, 4) && decimal_from(ts, 5, 2) && decimal_from(ts, 8, 2)
            && decimal_from(ts, 11, 2) && decimal_from(ts, 14, 2));
    }
    if well_formed(ts) {
        assert forall|j: int| #[trigger] is_read_place(j) implies 0x30 <= ts[j] <= 0x39 by {
        }
    }
}

/// The parts of a well-formed timestamp are the numbers that its digits write.
pub proof fn lemma_parts(ts: Seq<u8>)
    requires
        readable(ts),
    ensures
        parts(ts).year == 1000 * (ts[0] - 0x30) + 100 * (ts[1] - 0x30) + 10 * (ts[2] - 0x30) + (
        ts[3] - 0x30),
        parts(ts).month == 10 * (ts[5] - 0x30) + (ts[6] - 0x30),
        parts(ts).day == 10 * (ts[8] - 0x30) + (ts[9] - 0x30),
        parts(ts).hour == 10 * (ts[11] - 0x30) + (ts[12] - 0x30),
        parts(ts).minute == 10 * (ts[14] - 0x30) + (ts[15] - 0x30),
{
}

/// Time runs evenly: a minute more is one minute, an hour more is sixty, and counting
/// starts at the first minute of 1970.
pub proof fn lemma_clock(t: ParsedTs, later: ParsedTs)
    requires
        on_same_date(t, later),
    ensures
        later.minutes() - t.minutes() == 60 * (later.hour - t.hour) + (later.minute - t.minute),
        t.year == 1970 && t.month == 1 && t.day == 1 ==> t.minutes() == 60 * t.hour + t.minute,
{
}

/// The days count on beyond the calendar: a day more is one more whatever the month,
/// 400 years are 146097 days, five months from March on are 153, and the month before
/// January is the December of the year before.
pub proof fn lemma_days_count_on(y: int, m: int, d: int, e: int)
    ensures
        days(y, m, e) - days(y, m, d) == e - d,
        days(y + 400, m, d) == days(y, m, d) + 146_097,
        m >= 3 ==> days(y, m + 5, d) == days(y, m, d) + 153,
        days(y, 0, d) == days(y - 1, 12, d),
{
    let march = march_year(y, m);
    assert(march_year(y + 400, m) == march + 400);
    assert((march + 400) / 400 == march / 400 + 1 && (march + 400) % 400 == march % 400);
    assert(day_of_year(m, e) - day_of_year(m, d) == e - d);
    if m >= 3 {
        let month = march_month(m);
        assert(march_month(m + 5) == month + 5);
        assert((153 * (month + 5) + 2) / 5 == (153 * month + 2) / 5 + 153);
    }
    assert(march_month(0) == march_month(12));
}

/// A timestamp that writes a date of the calendar and a time of day is accepted, and
/// what is parsed from it is what it writes.
pub proof fn lemma_written_is_accepted(
    ts: &[u8; 20],
    y: int,
    m: int,
    d: int,
    hour: int,
    minute: int,
    second: int,
    accepted: bool,
    t: ParsedTs,
)
    requires
        0 <= y <= 9999,
        is_date(y, m, d),
        0 <= hour <= 23,
        0 <= minute <= 59,
        0 <= second <= 59,
        ts@ == written(y, m, d, hour, minute, second),
        call_ensures(is_well_formed, (ts,), accepted),
        call_ensures(ParsedTs::from_iso, (ts,), t),
    ensures
        accepted,
        t.year == y && t.month == m && t.day == d && t.hour == hour && t.minute == minute,
{
    lemma_written_is_read(y, m, d, hour, minute, second);
}

/// Of two times on dates of the calendar the difference is counted in minutes: 1440 for
/// each day between the dates, sixty for each hour, one for each minute. It changes its
/// sign when the two are exchanged.
pub proof fn lemma_minutes_between(a: ParsedTs, b: ParsedTs, forward: i64, backward: i64)
    requires
        call_ensures(minutes_diff, (a, b), forward),
        call_ensures(minutes_diff, (b, a), backward),
    ensures
        forward == 1440 * (days(a.year as int, a.month as int, a.day as int) - days(
            b.year as int,
            b.month as int,
            b.day as int,
        )) + 60 * (a.hour - b.hour) + (a.minute - b.minute),
        forward + backward == 0,
{
}

/// The day of the week goes on with the days: by one from each date to the next, and
/// from Sunday back to Monday.
pub proof fn lemma_weekdays_go_on(t: ParsedTs, tomorrow: ParsedTs, w: i64, v: i64)
    requires
        is_date(t.year as int, t.month as int, t.day as int),
        t.year > 0,
        (tomorrow.year as int, tomorrow.month as int, tomorrow.day as int) == next_day(
            t.year as int,
            t.month as int,
            t.day as int,
        ),
        call_ensures(ParsedTs::weekday_mon0, (t,), w),
        call_ensures(ParsedTs::weekday_mon0, (tomorrow,), v),
    ensures
        0 <= w <= 6,
        v == if w == 6 {
            0
        } else {
            w + 1
        },
        t.year == 1970 && t.month == 1 && t.day == 1 ==> w == 3,
{
    let (y, m, d) = (t.year as int, t.month as int, t.day as int);
    let (ny, nm, nd) = (tomorrow.year as int, tomorrow.month as int, tomorrow.day as int);
    lemma_days(y, m, d);
    lemma_weekday(y, m, d);
    lemma_weekday(ny, nm, nd);
    lemma_weekday_steps(days(y, m, d), weekday(y, m, d), weekday(ny, nm, nd));
    if y == 1970 && m == 1 && d == 1 {
        assert(days(1970, 1, 1) == 0);
    }
}

proof fn lemma_weekday_steps(n: int, today: int, tomorrow: int)
    requires
        today == (n + 4) % 7,
        tomorrow == (n + 1 + 4) % 7,
    ensures
        0 <= (today + 6) % 7 <= 6,
        (tomorrow + 6) % 7 == if (today + 6) % 7 == 6 {
            0
        } else {
            (today + 6) % 7 + 1
        },
        n == 0 ==> (today + 6) % 7 == 3,
{
}

} // verus!
