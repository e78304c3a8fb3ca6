//! Calendar core: a proleptic Gregorian date as plain year/month/day values,
//! together with the day-number model that all contracts are stated over.
use vstd::prelude::*;

verus! {

/// Smallest year a `Date` may hold.
pub const MIN_YEAR: u32 = 1;
/// Largest year a `Date` may hold; advancing past `9999-12-31` exhausts a stream.
pub const MAX_YEAR: u32 = 9999;

/// A day of the week.
#[derive(Clone, Copy, Debug, PartialEq, Eq, Structural)]
pub enum Weekday {
    Mon,
    Tue,
    Wed,
    Thu,
    Fri,
    Sat,
    Sun,
}

/// Index of a weekday, 0 for Monday through 6 for Sunday.
pub open spec fn weekday_index(w: Weekday) -> int {
    match w {
        Weekday::Mon => 0,
        Weekday::Tue => 1,
        Weekday::Wed => 2,
        Weekday::Thu => 3,
        Weekday::Fri => 4,
        Weekday::Sat => 5,
        Weekday::Sun => 6,
    }
}

/// Weekday with the given index; inverse of `weekday_index` on `0..7`.
pub open spec fn weekday_from_index(i: int) -> Weekday {
    if i == 0 {
        Weekday::Mon
    } else if i == 1 {
        Weekday::Tue
    } else if i == 2 {
        Weekday::Wed
    } else if i == 3 {
        Weekday::Thu
    } else if i == 4 {
        Weekday::Fri
    } else if i == 5 {
        Weekday::Sat
    } else {
        Weekday::Sun
    }
}

impl Weekday {
    /// Index of this weekday, 0 for Monday through 6 for Sunday.
    pub fn index(&self) -> (r: u32)
        ensures
            r == weekday_index(*self),
    {
        match *self {
            Weekday::Mon => 0,
            Weekday::Tue => 1,
            Weekday::Wed => 2,
            Weekday::Thu => 3,
            Weekday::Fri => 4,
            Weekday::Sat => 5,
            Weekday::Sun => 6,
        }
    }
}

/// A proleptic Gregorian calendar date. Valid dates (see `Date::wf`) lie between
/// `0001-01-01` and `9999-12-31`.
#[derive(Clone, Copy, Debug, PartialEq, Eq, Structural)]
pub struct Date {
    pub year: u32,
    pub month: u32,
    pub day: u32,
}

/// Gregorian leap-year rule.
pub open spec fn spec_is_leap(y: int) -> bool {
    (y % 4 == 0 && y % 100 != 0) || y % 400 == 0
}

/// Number of days in month `m` of year `y`.
pub open spec fn spec_days_in_month(y: int, m: int) -> int {
    if m == 2 {
        if spec_is_leap(y) {
            29
        } else {
            28
        }
    } else if m == 4 || m == 6 || m == 9 || m == 11 {
        30
    } else {
        31
    }
}

/// Number of days in year `y`.
pub open spec fn spec_days_in_year(y: int) -> int {
    if spec_is_leap(y) {
        366
    } else {
        365
    }
}

/// Days in all years strictly before year `y`, counted from year `MIN_YEAR`.
pub open spec fn days_before_year(y: int) -> int
    decreases y,
{
    if y <= MIN_YEAR {
        0
    } else {
        days_before_year(y - 1) + spec_days_in_year(y - 1)
    }
}

/// Days in all months of year `y` strictly before month `m`.
pub open spec fn days_before_month(y: int, m: int) -> int
    decreases m,
{
    if m <= 1 {
        0
    } else {
        days_before_month(y, m - 1) + spec_days_in_month(y, m - 1)
    }
}

/// Whether year `y`, month `m`, day `d` name a valid date in the supported range.
pub open spec fn spec_valid_ymd(y: int, m: int, d: int) -> bool {
    &&& MIN_YEAR <= y <= MAX_YEAR
    &&& 1 <= m <= 12
    &&& 1 <= d <= spec_days_in_month(y, m)
}

impl Date {
    /// Validity: the fields name a real date between `0001-01-01` and `9999-12-31`.
    pub open spec fn wf(self) -> bool {
        spec_valid_ymd(self.year as int, self.month as int, self.day as int)
    }
}

/// Days elapsed since `0001-01-01` (which has day number 0). Total order on dates.
pub open spec fn day_number(d: Date) -> int {
    days_before_year(d.year as int) + days_before_month(d.year as int, d.month as int) + d.day - 1
}

/// Ordinal of the date within its year, 1 for January 1st.
pub open spec fn day_of_year(d: Date) -> int {
    days_before_month(d.year as int, d.month as int) + d.day
}

/// Weekday of a date; `0001-01-01` is a Monday.
pub open spec fn weekday_of(d: Date) -> Weekday {
    weekday_from_index(day_number(d) % 7)
}

/// The largest representable date.
pub open spec fn max_date() -> Date {
    Date { year: MAX_YEAR, month: 12, day: 31 }
}

/// Day number of the largest representable date.
pub open spec fn max_day_number() -> int {
    day_number(max_date())
}

/// Whether `a` comes strictly before `b` in year/month/day lexicographic order.
pub open spec fn lex_lt(a: Date, b: Date) -> bool {
    ||| a.year < b.year
    ||| (a.year == b.year && a.month < b.month)
    ||| (a.year == b.year && a.month == b.month && a.day < b.day)
}

/// Whether `y` is a leap year.
pub fn is_leap(y: u32) -> (r: bool)
    ensures
        r == spec_is_leap(y as int),
{
    (y % 4 == 0 && y % 100 != 0) || y % 400 == 0
}

/// Number of days in month `m` of year `y`.
pub fn days_in_month(y: u32, m: u32) -> (r: u32)
    requires
        1 <= m <= 12,
    ensures
        r == spec_days_in_month(y as int, m as int),
{
    if m == 2 {
        if is_leap(y) {
            29
        } else {
            28
        }
    } else if m == 4 || m == 6 || m == 9 || m == 11 {
        30
    } else {
        31
    }
}

/// Number of days in year `y`.
pub fn days_in_year(y: u32) -> (r: u32)
    ensures
        r == spec_days_in_year(y as int),
{
    if is_leap(y) {
        366
    } else {
        365
    }
}

/// The days before the months of a year sum to the days of the year.
pub proof fn lemma_year_days(y: int)
    ensures
        days_before_month(y, 13) == spec_days_in_year(y),
        days_before_month(y, 12) + spec_days_in_month(y, 12) == spec_days_in_year(y),
{
    assert(days_before_month(y, 1) == 0);
    assert(days_before_month(y, 2) == 31);
    assert(days_before_month(y, 3) == days_before_month(y, 2) + spec_days_in_month(y, 2));
    assert(days_before_month(y, 4) == days_before_month(y, 3) + 31);
    assert(days_before_month(y, 5) == days_before_month(y, 4) + 30);
    assert(days_before_month(y, 6) == days_before_month(y, 5) + 31);
    assert(days_before_month(y, 7) == days_before_month(y, 6) + 30);
    assert(days_before_month(y, 8) == days_before_month(y, 7) + 31);
    assert(days_before_month(y, 9) == days_before_month(y, 8) + 31);
    assert(days_before_month(y, 10) == days_before_month(y, 9) + 30);
    assert(days_before_month(y, 11) == days_before_month(y, 10) + 31);
    assert(days_before_month(y, 12) == days_before_month(y, 11) + 30);
    assert(days_before_month(y, 13) == days_before_month(y, 12) + 31);
}

/// `days_before_month` grows with the month.
pub proof fn lemma_dbm_monotone(y: int, m1: int, m2: int)
    requires
        m1 <= m2,
    ensures
        days_before_month(y, m1) <= days_before_month(y, m2),
    decreases m2 - m1,
{
    if m1 < m2 {
        lemma_dbm_monotone(y, m1, m2 - 1);
        assert(spec_days_in_month(y, m2 - 1) >= 28);
    }
}

/// `days_before_year` grows with the year.
pub proof fn lemma_dby_monotone(y1: int, y2: int)
    requires
        y1 <= y2,
    ensures
        days_before_year(y1) <= days_before_year(y2),
    decreases y2 - y1,
{
    if y1 < y2 {
        lemma_dby_monotone(y1, y2 - 1);
        assert(spec_days_in_year(y2 - 1) >= 365);
    }
}

/// The day-of-year ordinal of a valid date lies between 1 and the year's length.
pub proof fn lemma_day_of_year_bounds(d: Date)
    requires
        d.wf(),
    ensures
        1 <= day_of_year(d) <= spec_days_in_year(d.year as int),
{
    let y = d.year as int;
    let m = d.month as int;
    lemma_dbm_monotone(y, 1, m);
    lemma_dbm_monotone(y, m + 1, 13);
    lemma_year_days(y);
    assert(days_before_month(y, m + 1) == days_before_month(y, m) + spec_days_in_month(y, m));
}

/// Lexicographic order on year/month/day agrees with the day-number order.
pub proof fn lemma_lex_day_number(a: Date, b: Date)
    requires
        a.wf(),
        b.wf(),
        lex_lt(a, b),
    ensures
        day_number(a) < day_number(b),
{
    let ya = a.year as int;
    let yb = b.year as int;
    if ya < yb {
        lemma_day_of_year_bounds(a);
        lemma_day_of_year_bounds(b);
        assert(days_before_year(ya + 1) == days_before_year(ya) + spec_days_in_year(ya));
        lemma_dby_monotone(ya + 1, yb);
    } else if a.month < b.month {
        let m = a.month as int;
        assert(days_before_month(ya, m + 1) == days_before_month(ya, m) + spec_days_in_month(
            ya,
            m,
        ));
        lemma_dbm_monotone(ya, m + 1, b.month as int);
    }
}

/// Day numbers of valid dates are nonnegative.
pub proof fn lemma_day_number_nonneg(d: Date)
    requires
        d.wf(),
    ensures
        day_number(d) >= 0,
{
    lemma_dby_monotone(MIN_YEAR as int, d.year as int);
    lemma_dbm_monotone(d.year as int, 1, d.month as int);
}

/// Day numbers of valid dates never exceed the maximum, and are distinct for
/// distinct dates.
pub proof fn lemma_day_number_max(d: Date)
    requires
        d.wf(),
    ensures
        day_number(d) <= max_day_number(),
        day_number(d) == max_day_number() <==> d == max_date(),
{
    if d != max_date() {
        assert(lex_lt(d, max_date()));
        lemma_lex_day_number(d, max_date());
    }
}

/// The calendar day after `d`, or `None` past the largest representable date.
pub open spec fn spec_succ(d: Date) -> Option<Date> {
    if (d.day as int) < spec_days_in_month(d.year as int, d.month as int) {
        Some(Date { year: d.year, month: d.month, day: (d.day + 1) as u32 })
    } else if d.month < 12 {
        Some(Date { year: d.year, month: (d.month + 1) as u32, day: 1 })
    } else if d.year < MAX_YEAR {
        Some(Date { year: (d.year + 1) as u32, month: 1, day: 1 })
    } else {
        None
    }
}

/// The successor of a valid date is the date one day later; only the maximum
/// date has none.
pub proof fn lemma_succ(d: Date)
    requires
        d.wf(),
    ensures
        spec_succ(d) is Some <==> d != max_date(),
        spec_succ(d) matches Some(n) ==> n.wf() && day_number(n) == day_number(d) + 1,
{
    let y = d.year as int;
    let m = d.month as int;
    if (d.day as int) < spec_days_in_month(y, m) {
    } else if d.month < 12 {
        assert(days_before_month(y, m + 1) == days_before_month(y, m) + spec_days_in_month(y, m));
    } else if d.year < MAX_YEAR {
        lemma_year_days(y);
        assert(days_before_year(y + 1) == days_before_year(y) + spec_days_in_year(y));
    }
}

/// The date `n` days after `d`, or `None` if that runs past the largest
/// representable date.
pub open spec fn spec_add_days(d: Date, n: nat) -> Option<Date>
    decreases n,
{
    if n == 0 {
        Some(d)
    } else {
        match spec_succ(d) {
            None => None,
            Some(e) => spec_add_days(e, (n - 1) as nat),
        }
    }
}

/// Adding `n` days succeeds exactly when the result stays in range, and then
/// advances the day number by exactly `n`.
pub proof fn lemma_add_days(d: Date, n: nat)
    requires
        d.wf(),
    ensures
        spec_add_days(d, n) is Some <==> day_number(d) + n <= max_day_number(),
        spec_add_days(d, n) matches Some(e) ==> e.wf() && day_number(e) == day_number(d) + n,
    decreases n,
{
    lemma_day_number_max(d);
    if n > 0 {
        lemma_succ(d);
        match spec_succ(d) {
            None => {},
            Some(e) => {
                lemma_add_days(e, (n - 1) as nat);
            },
        }
    }
}

impl Date {
    /// Builds a date from its components, rejecting invalid ones.
    pub fn from_ymd(year: u32, month: u32, day: u32) -> (r: Option<Date>)
        ensures
            r is Some <==> spec_valid_ymd(year as int, month as int, day as int),
            r matches Some(d) ==> d == (Date { year, month, day }),
    {
        if MIN_YEAR <= year && year <= MAX_YEAR && 1 <= month && month <= 12 && 1 <= day
            && day <= days_in_month(year, month) {
            Some(Date { year, month, day })
        } else {
            None
        }
    }

    /// The next calendar day, or `None` if `self` is the largest representable date.
    pub fn succ(&self) -> (r: Option<Date>)
        requires
            self.wf(),
        ensures
            r == spec_succ(*self),
    {
        if self.day < days_in_month(self.year, self.month) {
            Some(Date { year: self.year, month: self.month, day: self.day + 1 })
        } else if self.month < 12 {
            Some(Date { year: self.year, month: self.month + 1, day: 1 })
        } else if self.year < MAX_YEAR {
            Some(Date { year: self.year + 1, month: 1, day: 1 })
        } else {
            None
        }
    }

    /// The date `n` days later, or `None` if that leaves the supported range.
    pub fn add_days(&self, n: u32) -> (r: Option<Date>)
        requires
            self.wf(),
        ensures
            r == spec_add_days(*self, n as nat),
    {
        let mut cur = *self;
        let mut i: u32 = 0;
        while i < n
            invariant
                i <= n,
                cur.wf(),
                spec_add_days(*self, n as nat) == spec_add_days(cur, (n - i) as nat),
            decreases n - i,
        {
            proof {
                lemma_succ(cur);
            }
            match cur.succ() {
                Some(e) => {
                    cur = e;
                    i = i + 1;
                },
                None => {
                    return None;
                },
            }
        }
        Some(cur)
    }

    /// Days elapsed since `0001-01-01`.
    pub fn to_day_number(&self) -> (r: u32)
        requires
            self.wf(),
        ensures
            r == day_number(*self),
    {
        let mut y: u32 = MIN_YEAR;
        let mut acc: u32 = 0;
        while y < self.year
            invariant
                MIN_YEAR <= y <= self.year,
                self.wf(),
                acc == days_before_year(y as int),
                acc <= 366 * (y - 1),
            decreases self.year - y,
        {
            acc = acc + days_in_year(y);
            y = y + 1;
        }
        let mut m: u32 = 1;
        let mut macc: u32 = 0;
        while m < self.month
            invariant
                1 <= m <= self.month,
                self.wf(),
                macc == days_before_month(self.year as int, m as int),
                macc <= 31 * (m - 1),
            decreases self.month - m,
        {
            macc = macc + days_in_month(self.year, m);
            m = m + 1;
        }
        acc + macc + self.day - 1
    }

    /// The ordinal of this date within its year, 1 for January 1st.
    pub fn to_day_of_year(&self) -> (r: u32)
        requires
            self.wf(),
        ensures
            r == day_of_year(*self),
    {
        let mut m: u32 = 1;
        let mut macc: u32 = 0;
        while m < self.month
            invariant
                1 <= m <= self.month,
                self.wf(),
                macc == days_before_month(self.year as int, m as int),
                macc <= 31 * (m - 1),
            decreases self.month - m,
        {
            macc = macc + days_in_month(self.year, m);
            m = m + 1;
        }
        macc + self.day
    }

    /// Whether this date comes strictly before `other` in calendar order.
    pub fn before(&self, other: &Date) -> (r: bool)
        requires
            self.wf(),
            other.wf(),
        ensures
            r == (day_number(*self) < day_number(*other)),
    {
        self.to_day_number() < other.to_day_number()
    }

    /// The day of the week this date falls on.
    pub fn weekday(&self) -> (r: Weekday)
        requires
            self.wf(),
        ensures
            r == weekday_of(*self),
    {
        let n = self.to_day_number();
        match n % 7 {
            0 => Weekday::Mon,
            1 => Weekday::Tue,
            2 => Weekday::Wed,
            3 => Weekday::Thu,
            4 => Weekday::Fri,
            5 => Weekday::Sat,
            _ => Weekday::Sun,
        }
    }
}

} // verus!
