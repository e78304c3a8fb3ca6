//! Transition rules: pure functions advancing a date to the next date of a
//! recurrence pattern, each one paired with its exact specification.
use vstd::prelude::*;

use crate::date::Date;
use crate::date::MAX_YEAR;
use crate::date::Weekday;
use crate::date::day_number;
use crate::date::day_of_year;
use crate::date::days_before_month;
use crate::date::days_in_month;
use crate::date::days_in_year;
use crate::date::lemma_add_days;
use crate::date::lemma_day_number_max;
use crate::date::lemma_day_number_nonneg;
use crate::date::lemma_lex_day_number;
use crate::date::lemma_succ;
use crate::date::lemma_year_days;
use crate::date::lex_lt;
use crate::date::max_day_number;
use crate::date::spec_add_days;
use crate::date::spec_days_in_month;
use crate::date::spec_days_in_year;
use crate::date::spec_succ;
use crate::date::weekday_from_index;
use crate::date::weekday_index;
use crate::date::weekday_of;

verus! {

/// A pure rule advancing a date to the next date of a recurrence pattern.
/// `advance` must agree with the rule's specification and must move strictly
/// forward, so a stream driven by it never yields a date twice.
pub trait TransitionRule: Sized {
    /// Validity of the rule's own parameters.
    spec fn wf(&self) -> bool;

    /// The date the rule advances to, or `None` past the supported range.
    spec fn spec_next(&self, d: Date) -> Option<Date>;

    /// Every rule moves strictly forward to a valid date: the obligation that
    /// makes a stream driven by it strictly increasing.
    proof fn next_advances(&self, d: Date)
        requires
            self.wf(),
            d.wf(),
        ensures
            self.spec_next(d) matches Some(n) ==> n.wf() && day_number(d) < day_number(n),
    ;

    /// Executable advance; exactly the specification, and strictly forward.
    fn advance(&self, d: &Date) -> (r: Option<Date>)
        requires
            self.wf(),
            d.wf(),
        ensures
            r == self.spec_next(*d),
            r matches Some(n) ==> n.wf() && day_number(*d) < day_number(n),
    ;
}

/// Incrementing a day number steps its weekday index cyclically.
proof fn lemma_mod7_succ(a: int)
    requires
        a >= 0,
    ensures
        (a + 1) % 7 == if a % 7 == 6 {
            0int
        } else {
            a % 7 + 1
        },
{
    vstd::arithmetic::div_mod::lemma_fundamental_div_mod(a, 7);
    if a % 7 == 6 {
        vstd::arithmetic::div_mod::lemma_fundamental_div_mod_converse(a + 1, 7, a / 7 + 1, 0);
    } else {
        vstd::arithmetic::div_mod::lemma_fundamental_div_mod_converse(a + 1, 7, a / 7, a % 7 + 1);
    }
}

/// A date falls on weekday `w` exactly when its day number is congruent to
/// `w`'s index modulo 7.
pub proof fn lemma_weekday_match(d: Date, w: Weekday)
    requires
        d.wf(),
    ensures
        weekday_of(d) == w <==> day_number(d) % 7 == weekday_index(w),
{
    let i = day_number(d) % 7;
    assert(0 <= i < 7);
    assert(weekday_from_index(i) == w <==> i == weekday_index(w));
}

/// Days from `d` to the first strictly later date falling on weekday `w`;
/// always in `1..=7`, and exactly `7` when `d` itself falls on `w`.
pub open spec fn weekday_delta(d: Date, w: Weekday) -> int {
    let wd = day_number(d) % 7;
    let wi = weekday_index(w);
    if wi > wd {
        wi - wd
    } else {
        wi - wd + 7
    }
}

/// Scan forward one day at a time, up to `fuel` days, to a date falling on
/// weekday `w`; `None` when the scan leaves the supported date range.
pub open spec fn spec_next_weekday(d: Date, w: Weekday, fuel: nat) -> Option<Date>
    decreases fuel,
{
    if fuel == 0 {
        None
    } else {
        match spec_succ(d) {
            None => None,
            Some(n) => if weekday_of(n) == w {
                Some(n)
            } else {
                spec_next_weekday(n, w, (fuel - 1) as nat)
            },
        }
    }
}

/// Whatever the scan yields is a valid date on weekday `w`, strictly later
/// than the start and at most `fuel` days past it.
pub proof fn lemma_scan_props(d: Date, w: Weekday, fuel: nat)
    requires
        d.wf(),
    ensures
        spec_next_weekday(d, w, fuel) matches Some(e) ==> e.wf() && weekday_of(e) == w
            && day_number(d) < day_number(e) <= day_number(d) + fuel,
    decreases fuel,
{
    if fuel > 0 {
        lemma_succ(d);
        match spec_succ(d) {
            None => {},
            Some(n) => {
                lemma_scan_props(n, w, (fuel - 1) as nat);
            },
        }
    }
}

/// Closed form of the weekday scan: with enough fuel it adds exactly
/// `weekday_delta(d, w)` days, failing only past the end of the date range.
pub proof fn lemma_scan_closed_form(d: Date, w: Weekday, fuel: nat)
    requires
        d.wf(),
        weekday_delta(d, w) <= fuel,
    ensures
        spec_next_weekday(d, w, fuel) == (if day_number(d) + weekday_delta(d, w)
            <= max_day_number() {
            spec_add_days(d, weekday_delta(d, w) as nat)
        } else {
            Option::<Date>::None
        }),
    decreases fuel,
{
    let dn = day_number(d);
    let wd = dn % 7;
    let wi = weekday_index(w);
    let delta = weekday_delta(d, w);
    assert(0 <= wd < 7);
    assert(0 <= wi < 7);
    lemma_succ(d);
    lemma_day_number_max(d);
    lemma_day_number_nonneg(d);
    match spec_succ(d) {
        None => {
            assert(dn == max_day_number());
        },
        Some(n) => {
            lemma_day_number_max(n);
            lemma_weekday_match(n, w);
            lemma_mod7_succ(dn);
            assert(day_number(n) % 7 == if wd == 6 {
                0int
            } else {
                wd + 1
            });
            if weekday_of(n) == w {
                assert(delta == 1);
                assert(spec_add_days(d, 1) == spec_add_days(n, 0));
            } else {
                assert(delta >= 2);
                assert(weekday_delta(n, w) == delta - 1);
                lemma_scan_closed_form(n, w, (fuel - 1) as nat);
                assert(spec_add_days(d, delta as nat) == spec_add_days(n, (delta - 1) as nat));
            }
        },
    }
}

/// Weekday recurrence: advance to the next date strictly later than the
/// current one that falls on `target`.
#[derive(Clone, Copy, Debug, PartialEq, Eq, Structural)]
pub struct WeekdayRule {
    pub target: Weekday,
}

impl TransitionRule for WeekdayRule {
    open spec fn wf(&self) -> bool {
        true
    }

    open spec fn spec_next(&self, d: Date) -> Option<Date> {
        spec_next_weekday(d, self.target, 7)
    }

    proof fn next_advances(&self, d: Date) {
        lemma_scan_props(d, self.target, 7);
    }

    fn advance(&self, d: &Date) -> (r: Option<Date>) {
        proof {
            lemma_scan_props(*d, self.target, 7);
        }
        let mut cur: Date = *d;
        let mut fuel: u32 = 7;
        while fuel > 0
            invariant
                d.wf(),
                cur.wf(),
                self.spec_next(*d) == spec_next_weekday(cur, self.target, fuel as nat),
            decreases fuel,
        {
            proof {
                lemma_succ(cur);
            }
            match cur.succ() {
                None => {
                    return None;
                },
                Some(n) => {
                    if n.weekday() == self.target {
                        proof {
                            assert(spec_next_weekday(cur, self.target, fuel as nat) == Some(n));
                            lemma_scan_props(*d, self.target, 7);
                        }
                        return Some(n);
                    }
                    cur = n;
                    fuel = fuel - 1;
                },
            }
        }
        None
    }
}

/// First-occurrence law of the weekday rule: the rule's result always falls on
/// the target weekday, lies strictly later than the current date by at most
/// seven days, and exists exactly when that many days remain in range.
pub proof fn lemma_weekday_rule_first(d: Date, w: Weekday)
    requires
        d.wf(),
    ensures
        (WeekdayRule { target: w }).spec_next(d) matches Some(e) ==> e.wf() && weekday_of(e) == w
            && day_number(d) < day_number(e) <= day_number(d) + 7,
        (WeekdayRule { target: w }).spec_next(d) is Some <==> day_number(d) + weekday_delta(d, w)
            <= max_day_number(),
{
    lemma_scan_props(d, w, 7);
    lemma_scan_closed_form(d, w, 7);
    lemma_add_days(d, weekday_delta(d, w) as nat);
}

/// Period law of the weekday rule: from a date already on the target weekday,
/// the rule advances by exactly seven days.
pub proof fn lemma_weekday_rule_period(d: Date, w: Weekday)
    requires
        d.wf(),
        weekday_of(d) == w,
    ensures
        (WeekdayRule { target: w }).spec_next(d) matches Some(e) ==> day_number(e) == day_number(d)
            + 7,
{
    lemma_weekday_match(d, w);
    assert(weekday_delta(d, w) == 7);
    lemma_scan_closed_form(d, w, 7);
    lemma_add_days(d, 7);
}

/// Why construction of a rule was rejected.
#[derive(Clone, Copy, Debug, PartialEq, Eq, Structural)]
pub enum RuleError {
    /// A month ordinal outside 1 through 4 or "last": a fifth occurrence of a
    /// weekday does not exist in every month.
    InvalidOrdinal,
    /// A day-of-year ordinal outside 1 through 366.
    InvalidYearDay,
}

/// Which occurrence of the target weekday within a month is meant.
#[derive(Clone, Copy, Debug, PartialEq, Eq, Structural)]
pub enum MonthOrdinal {
    /// The k-th occurrence; every month has a first through fourth one.
    Nth(u32),
    /// The last occurrence, whether it is the fourth or the fifth.
    Last,
}

/// The first day of the month after `d`'s month, or `None` past the range.
pub open spec fn first_of_next_month(d: Date) -> Option<Date> {
    if d.month < 12 {
        Some(Date { year: d.year, month: (d.month + 1) as u32, day: 1 })
    } else if d.year < MAX_YEAR {
        Some(Date { year: (d.year + 1) as u32, month: 1, day: 1 })
    } else {
        None
    }
}

/// Day of month of the first occurrence of weekday `w` in the month whose
/// first day is `first`; always in `1..=7`.
pub open spec fn first_matching_dom(first: Date, w: Weekday) -> int {
    let wd = day_number(first) % 7;
    let wi = weekday_index(w);
    (if wi >= wd {
        wi - wd
    } else {
        wi - wd + 7
    }) + 1
}

/// Month-ordinal recurrence: advance to the chosen occurrence of the target
/// weekday in the calendar month directly after the current date's month.
///
/// Ordinals are validated at construction: `nth` accepts only 1 through 4,
/// which exist in every month, so no month is ever skipped mid-sequence; a
/// fifth occurrence must be asked for as `last`.
#[derive(Clone, Copy, Debug, PartialEq, Eq, Structural)]
pub struct MonthOrdinalRule {
    pub target: Weekday,
    pub ord: MonthOrdinal,
}

impl MonthOrdinalRule {
    /// Rule for the `ord`-th occurrence of `target` in each following month.
    /// Rejects ordinals outside 1 through 4: a fifth occurrence does not exist
    /// in every month.
    pub fn nth(target: Weekday, ord: u32) -> (r: Result<MonthOrdinalRule, RuleError>)
        ensures
            r is Ok <==> 1 <= ord <= 4,
            r matches Ok(rule) ==> rule == (MonthOrdinalRule {
                target,
                ord: MonthOrdinal::Nth(ord),
            }),
            r is Err ==> r == Err::<MonthOrdinalRule, RuleError>(RuleError::InvalidOrdinal),
    {
        if 1 <= ord && ord <= 4 {
            Ok(MonthOrdinalRule { target, ord: MonthOrdinal::Nth(ord) })
        } else {
            Err(RuleError::InvalidOrdinal)
        }
    }

    /// Rule for the last occurrence of `target` in each following month.
    pub fn last(target: Weekday) -> (r: MonthOrdinalRule)
        ensures
            r == (MonthOrdinalRule { target, ord: MonthOrdinal::Last }),
    {
        MonthOrdinalRule { target, ord: MonthOrdinal::Last }
    }
}

impl TransitionRule for MonthOrdinalRule {
    open spec fn wf(&self) -> bool {
        self.ord matches MonthOrdinal::Nth(k) ==> 1 <= k <= 4
    }

    open spec fn spec_next(&self, d: Date) -> Option<Date> {
        match first_of_next_month(d) {
            None => None,
            Some(first) => {
                let f = first_matching_dom(first, self.target);
                let dom = match self.ord {
                    MonthOrdinal::Nth(k) => f + 7 * (k - 1),
                    MonthOrdinal::Last => f + 7 * ((spec_days_in_month(
                        first.year as int,
                        first.month as int,
                    ) - f) / 7),
                };
                Some(Date { year: first.year, month: first.month, day: dom as u32 })
            },
        }
    }

    proof fn next_advances(&self, d: Date) {
        lemma_month_ordinal_props(*self, d);
    }

    fn advance(&self, d: &Date) -> (r: Option<Date>) {
        let first = if d.month < 12 {
            Date { year: d.year, month: d.month + 1, day: 1 }
        } else if d.year < MAX_YEAR {
            Date { year: d.year + 1, month: 1, day: 1 }
        } else {
            return None;
        };
        let wd = first.to_day_number() % 7;
        let wi = self.target.index();
        let f = if wi >= wd {
            wi - wd + 1
        } else {
            wi + 8 - wd
        };
        let dim = days_in_month(first.year, first.month);
        let dom = match self.ord {
            MonthOrdinal::Nth(k) => f + 7 * (k - 1),
            MonthOrdinal::Last => f + 7 * ((dim - f) / 7),
        };
        let e = Date { year: first.year, month: first.month, day: dom };
        proof {
            lemma_month_dom_bounds(first, self.target, *self);
            assert(lex_lt(*d, e));
            lemma_lex_day_number(*d, e);
        }
        Some(e)
    }
}

/// The day of month the month-ordinal rule picks lies within its month, so
/// the rule's result is a valid date of the month after the current one.
proof fn lemma_month_dom_bounds(first: Date, w: Weekday, rule: MonthOrdinalRule)
    requires
        first.wf(),
        first.day == 1,
        rule.wf(),
        rule.target == w,
    ensures
        ({
            let f = first_matching_dom(first, w);
            let dim = spec_days_in_month(first.year as int, first.month as int);
            let dom = match rule.ord {
                MonthOrdinal::Nth(k) => f + 7 * (k - 1),
                MonthOrdinal::Last => f + 7 * ((dim - f) / 7),
            };
            1 <= f <= 7 && 1 <= dom <= dim
        }),
{
    let f = first_matching_dom(first, w);
    let dim = spec_days_in_month(first.year as int, first.month as int);
    assert(0 <= day_number(first) % 7 < 7);
    assert(28 <= dim);
    match rule.ord {
        MonthOrdinal::Nth(k) => {},
        MonthOrdinal::Last => {
            vstd::arithmetic::div_mod::lemma_fundamental_div_mod(dim - f, 7);
            assert(0 <= (dim - f) % 7 < 7);
        },
    }
}

/// Placement law of the month-ordinal rule: the result exists unless the
/// current month is the last representable one; it falls in the calendar month
/// directly after the current date's month, on the target weekday, at the
/// chosen ordinal position (within days `7k-6..=7k` for the k-th occurrence,
/// within the last seven days of the month for "last").
pub proof fn lemma_month_ordinal_props(rule: MonthOrdinalRule, d: Date)
    requires
        rule.wf(),
        d.wf(),
    ensures
        rule.spec_next(d) is Some <==> !(d.month == 12 && d.year == MAX_YEAR),
        rule.spec_next(d) matches Some(e) ==> e.wf() && weekday_of(e) == rule.target && (if d.month
            < 12 {
            e.year == d.year && e.month == d.month + 1
        } else {
            e.year == d.year + 1 && e.month == 1
        }) && day_number(d) < day_number(e) && (match rule.ord {
            MonthOrdinal::Nth(k) => 7 * (k - 1) < e.day <= 7 * k,
            MonthOrdinal::Last => e.day + 7 > spec_days_in_month(e.year as int, e.month as int),
        }),
{
    match first_of_next_month(d) {
        None => {},
        Some(first) => {
            lemma_month_dom_bounds(first, rule.target, rule);
            lemma_day_number_nonneg(first);
            let e = rule.spec_next(d)->Some_0;
            let f = first_matching_dom(first, rule.target);
            let dim = spec_days_in_month(first.year as int, first.month as int);
            let wd = day_number(first) % 7;
            let wi = weekday_index(rule.target);
            let j: int = match rule.ord {
                MonthOrdinal::Nth(k) => k - 1,
                MonthOrdinal::Last => (dim - f) / 7,
            };
            assert(e.day == f + 7 * j);
            assert(day_number(e) == day_number(first) + e.day - 1);
            vstd::arithmetic::div_mod::lemma_fundamental_div_mod(day_number(first), 7);
            let q = day_number(first) / 7;
            if wi >= wd {
                assert(day_number(e) == 7 * (q + j) + wi) by (nonlinear_arith)
                    requires
                        day_number(first) == 7 * q + wd,
                        day_number(e) == day_number(first) + (wi - wd + 1) + 7 * j - 1,
                ;
                vstd::arithmetic::div_mod::lemma_fundamental_div_mod_converse(
                    day_number(e),
                    7,
                    q + j,
                    wi,
                );
            } else {
                assert(day_number(e) == 7 * (q + j + 1) + wi) by (nonlinear_arith)
                    requires
                        day_number(first) == 7 * q + wd,
                        day_number(e) == day_number(first) + (wi - wd + 8) + 7 * j - 1,
                ;
                vstd::arithmetic::div_mod::lemma_fundamental_div_mod_converse(
                    day_number(e),
                    7,
                    q + j + 1,
                    wi,
                );
            }
            lemma_weekday_match(e, rule.target);
            assert(lex_lt(d, e));
            lemma_lex_day_number(d, e);
            match rule.ord {
                MonthOrdinal::Nth(k) => {},
                MonthOrdinal::Last => {
                    vstd::arithmetic::div_mod::lemma_fundamental_div_mod(dim - f, 7);
                },
            }
        },
    }
}

/// Fixed-stride recurrence: advance by a constant positive number of days.
#[derive(Clone, Copy, Debug, PartialEq, Eq, Structural)]
pub struct AddDaysRule {
    pub days: u32,
}

impl TransitionRule for AddDaysRule {
    open spec fn wf(&self) -> bool {
        self.days >= 1
    }

    open spec fn spec_next(&self, d: Date) -> Option<Date> {
        spec_add_days(d, self.days as nat)
    }

    proof fn next_advances(&self, d: Date) {
        lemma_add_days(d, self.days as nat);
    }

    fn advance(&self, d: &Date) -> (r: Option<Date>) {
        proof {
            lemma_add_days(*d, self.days as nat);
        }
        d.add_days(self.days)
    }
}

/// Splits a day-of-year ordinal into month and day of month: starting at
/// month `m` with `rem` days still to place, move month by month.
pub open spec fn spec_split_yearday(y: int, m: int, rem: int) -> (int, int)
    decreases 12 - m,
{
    if m >= 12 || rem <= spec_days_in_month(y, m) {
        (m, rem)
    } else {
        spec_split_yearday(y, m + 1, rem - spec_days_in_month(y, m))
    }
}

/// The date of year `y` with day-of-year ordinal `n`.
pub open spec fn spec_from_yearday(y: int, n: int) -> Date {
    let (m, dd) = spec_split_yearday(y, 1, n);
    Date { year: y as u32, month: m as u32, day: dd as u32 }
}

/// Splitting a day-of-year ordinal lands on a valid month and day whose
/// ordinal within the year is the one asked for.
pub proof fn lemma_split_yearday(y: int, m: int, rem: int)
    requires
        1 <= m <= 12,
        1 <= rem,
        days_before_month(y, m) + rem <= spec_days_in_year(y),
    ensures
        ({
            let (mm, dd) = spec_split_yearday(y, m, rem);
            1 <= mm <= 12 && 1 <= dd <= spec_days_in_month(y, mm) && days_before_month(y, mm) + dd
                == days_before_month(y, m) + rem
        }),
    decreases 12 - m,
{
    lemma_year_days(y);
    if m >= 12 || rem <= spec_days_in_month(y, m) {
    } else {
        assert(days_before_month(y, m + 1) == days_before_month(y, m) + spec_days_in_month(y, m));
        lemma_split_yearday(y, m + 1, rem - spec_days_in_month(y, m));
    }
}

/// Year-day recurrence: advance to the day with a fixed ordinal in the year
/// directly after the current date's year.
///
/// Ordinal 366 exists only in leap years; in other years the rule falls back
/// to day 365, the last day of the year, rather than skipping the year.
#[derive(Clone, Copy, Debug, PartialEq, Eq, Structural)]
pub struct YearDayRule {
    pub ordinal: u32,
}

impl YearDayRule {
    /// Rule for the `ordinal`-th day of each following year. Rejects ordinals
    /// outside 1 through 366.
    pub fn new(ordinal: u32) -> (r: Result<YearDayRule, RuleError>)
        ensures
            r is Ok <==> 1 <= ordinal <= 366,
            r matches Ok(rule) ==> rule == (YearDayRule { ordinal }),
            r is Err ==> r == Err::<YearDayRule, RuleError>(RuleError::InvalidYearDay),
    {
        if 1 <= ordinal && ordinal <= 366 {
            Ok(YearDayRule { ordinal })
        } else {
            Err(RuleError::InvalidYearDay)
        }
    }
}

impl TransitionRule for YearDayRule {
    open spec fn wf(&self) -> bool {
        1 <= self.ordinal <= 366
    }

    open spec fn spec_next(&self, d: Date) -> Option<Date> {
        if d.year >= MAX_YEAR {
            None
        } else {
            let y = d.year + 1;
            let capped = if self.ordinal <= spec_days_in_year(y as int) {
                self.ordinal as int
            } else {
                spec_days_in_year(y as int)
            };
            Some(spec_from_yearday(y as int, capped))
        }
    }

    proof fn next_advances(&self, d: Date) {
        lemma_year_day_props(*self, d);
    }

    fn advance(&self, d: &Date) -> (r: Option<Date>) {
        if d.year >= MAX_YEAR {
            return None;
        }
        let y = d.year + 1;
        let diy = days_in_year(y);
        let capped = if self.ordinal <= diy {
            self.ordinal
        } else {
            diy
        };
        let ghost whole: int = capped as int;
        let mut rem = capped;
        let mut m: u32 = 1;
        while m < 12 && rem > days_in_month(y, m)
            invariant
                1 <= m <= 12,
                1 <= rem,
                1 <= self.ordinal <= 366,
                days_before_month(y as int, m as int) + rem == whole,
                whole <= spec_days_in_year(y as int),
                spec_split_yearday(y as int, 1, whole) == spec_split_yearday(
                    y as int,
                    m as int,
                    rem as int,
                ),
            decreases 12 - m,
        {
            rem = rem - days_in_month(y, m);
            m = m + 1;
            proof {
                assert(days_before_month(y as int, m as int) == days_before_month(
                    y as int,
                    m as int - 1,
                ) + spec_days_in_month(y as int, m as int - 1));
            }
        }
        let e = Date { year: y, month: m, day: rem };
        proof {
            lemma_split_yearday(y as int, 1, whole);
            lemma_year_days(y as int);
            assert(lex_lt(*d, e));
            lemma_lex_day_number(*d, e);
        }
        Some(e)
    }
}

/// Placement law of the year-day rule: the result exists unless the current
/// year is the last representable one; it falls in the year directly after
/// the current date's year, at the requested day-of-year ordinal, capped to
/// the year's length when the ordinal is 366 and the year is not a leap year.
pub proof fn lemma_year_day_props(rule: YearDayRule, d: Date)
    requires
        rule.wf(),
        d.wf(),
    ensures
        rule.spec_next(d) is Some <==> d.year < MAX_YEAR,
        rule.spec_next(d) matches Some(e) ==> e.wf() && e.year == d.year + 1 && day_number(d)
            < day_number(e) && day_of_year(e) == (if rule.ordinal <= spec_days_in_year(
            e.year as int,
        ) {
            rule.ordinal as int
        } else {
            spec_days_in_year(e.year as int)
        }),
{
    if d.year < MAX_YEAR {
        let y = d.year + 1;
        let capped = if rule.ordinal <= spec_days_in_year(y as int) {
            rule.ordinal as int
        } else {
            spec_days_in_year(y as int)
        };
        lemma_split_yearday(y as int, 1, capped);
        let e = rule.spec_next(d)->Some_0;
        assert(lex_lt(d, e));
        lemma_lex_day_number(d, e);
    }
}

} // verus!
