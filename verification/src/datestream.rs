//! The lazy date-sequence cursor: a generator of dates driven by a pure
//! transition rule, bounded only by the consumer or by calendar exhaustion.
use vstd::prelude::*;

use crate::date::Date;
use crate::date::MAX_YEAR;
use crate::date::MIN_YEAR;
use crate::date::Weekday;
use crate::date::day_number;
use crate::date::spec_days_in_month;
use crate::date::weekday_of;
use crate::rules::MonthOrdinal;
use crate::rules::MonthOrdinalRule;
use crate::rules::RuleError;
use crate::rules::TransitionRule;
use crate::rules::WeekdayRule;
use crate::rules::YearDayRule;
use crate::rules::lemma_scan_props;
use crate::rules::lemma_weekday_rule_period;

verus! {

/// Allows iteration of arbitrary date ranges.
///
/// The cursor of a lazy date sequence: the date to yield next, if any, and
/// the owned transition rule. The sequence is bounded only on the start side;
/// it continues until the supported date range is exhausted and should
/// otherwise be bounded by the consumer, for instance with `take`.
#[derive(Debug)]
pub struct DateRangeIterator<R> {
    pub date: Option<Date>,
    pub rule: R,
}

/// The dates the cursor state `(date, rule)` yields in its next `n` pulls.
pub open spec fn spec_take<R: TransitionRule>(date: Option<Date>, rule: R, n: nat) -> Seq<Date>
    decreases n,
{
    if n == 0 {
        Seq::empty()
    } else {
        match date {
            None => Seq::empty(),
            Some(d) => seq![d] + spec_take(rule.spec_next(d), rule, (n - 1) as nat),
        }
    }
}

/// The cursor date after `n` pulls from state `(date, rule)`.
pub open spec fn spec_after<R: TransitionRule>(date: Option<Date>, rule: R, n: nat) -> Option<
    Date,
>
    decreases n,
{
    if n == 0 {
        date
    } else {
        match date {
            None => None,
            Some(d) => spec_after(rule.spec_next(d), rule, (n - 1) as nat),
        }
    }
}

/// One more pull moves the cursor date by one rule application at the back.
proof fn lemma_after_snoc<R: TransitionRule>(date: Option<Date>, rule: R, n: nat)
    ensures
        spec_after(date, rule, n + 1) == (match spec_after(date, rule, n) {
            None => None::<Date>,
            Some(d) => rule.spec_next(d),
        }),
    decreases n,
{
    match date {
        None => {},
        Some(d) => {
            if n == 0 {
                assert(spec_after(date, rule, 1) == spec_after(rule.spec_next(d), rule, 0));
            } else {
                lemma_after_snoc(rule.spec_next(d), rule, (n - 1) as nat);
            }
        },
    }
}

impl<R: TransitionRule> DateRangeIterator<R> {
    /// Validity: the pending date, if any, is a valid date, and the rule's
    /// parameters are valid.
    pub open spec fn wf(self) -> bool {
        &&& (self.date matches Some(d) ==> d.wf())
        &&& self.rule.wf()
    }

    /// Cursor seeded at `date`; the seed itself is the first date yielded.
    pub fn from_date(date: Date, rule: R) -> (s: DateRangeIterator<R>)
        requires
            date.wf(),
            rule.wf(),
        ensures
            s == (DateRangeIterator { date: Some(date), rule }),
    {
        DateRangeIterator { date: Some(date), rule }
    }

    /// Cursor seeded at the current local date. When the clock reports a date
    /// outside the supported years it is clamped to the nearest range end.
    pub fn new(rule: R) -> (s: DateRangeIterator<R>)
        requires
            rule.wf(),
        ensures
            s.date is Some,
            s.rule == rule,
            s.wf(),
    {
        let (y, m, d) = today_ymd();
        let date = if y < MIN_YEAR as i32 {
            Date { year: MIN_YEAR, month: 1, day: 1 }
        } else if y > MAX_YEAR as i32 {
            Date { year: MAX_YEAR, month: 12, day: 31 }
        } else {
            Date { year: y as u32, month: m, day: d }
        };
        DateRangeIterator { date: Some(date), rule }
    }

    /// Yields the pending date and advances the cursor by one application of
    /// the rule; yields nothing once the sequence is exhausted.
    pub fn next(&mut self) -> (r: Option<Date>)
        requires
            old(self).wf(),
        ensures
            final(self).wf(),
            r == old(self).date,
            final(self).rule == old(self).rule,
            final(self).date == (match old(self).date {
                None => None::<Date>,
                Some(d) => old(self).rule.spec_next(d),
            }),
            r matches Some(d) ==> d.wf(),
            final(self).date matches Some(n) ==> r matches Some(d) && day_number(d) < day_number(
                n,
            ),
    {
        match self.date {
            None => None,
            Some(d) => {
                self.date = self.rule.advance(&d);
                Some(d)
            },
        }
    }

    /// Pulls up to `n` dates, in order; fewer come back only when the
    /// sequence is exhausted first.
    pub fn take(&mut self, n: usize) -> (r: Vec<Date>)
        requires
            old(self).wf(),
        ensures
            final(self).wf(),
            r@ == spec_take(old(self).date, old(self).rule, n as nat),
            final(self).rule == old(self).rule,
            final(self).date == spec_after(old(self).date, old(self).rule, n as nat),
    {
        let mut r: Vec<Date> = Vec::new();
        let mut i: usize = 0;
        while i < n
            invariant
                i <= n,
                self.wf(),
                self.rule == old(self).rule,
                spec_take(old(self).date, old(self).rule, n as nat) == r@ + spec_take(
                    self.date,
                    self.rule,
                    (n - i) as nat,
                ),
                spec_after(old(self).date, old(self).rule, i as nat) == self.date,
                spec_after(old(self).date, old(self).rule, n as nat) == spec_after(
                    self.date,
                    self.rule,
                    (n - i) as nat,
                ),
            decreases n - i,
        {
            let ghost prev = self.date;
            match self.next() {
                None => {
                    proof {
                        assert(spec_take(prev, self.rule, (n - i) as nat) =~= Seq::<
                            Date,
                        >::empty());
                        assert(r@ + Seq::<Date>::empty() =~= r@);
                    }
                    return r;
                },
                Some(d) => {
                    let ghost prev_r = r@;
                    r.push(d);
                    i = i + 1;
                    proof {
                        lemma_after_snoc(old(self).date, old(self).rule, (i - 1) as nat);
                        assert(spec_take(prev, self.rule, (n - i + 1) as nat) == seq![d]
                            + spec_take(self.date, self.rule, (n - i) as nat));
                        assert(prev_r + (seq![d] + spec_take(self.date, self.rule, (n - i) as nat))
                            =~= r@ + spec_take(self.date, self.rule, (n - i) as nat));
                    }
                },
            }
        }
        proof {
            assert(r@ + spec_take(self.date, self.rule, 0) =~= r@);
        }
        r
    }
}

/// Determinism law of the sequence primitive: two cursors built from the same
/// seed and rule yield the same dates, pull after pull, and leave equal
/// cursors behind; discarding a cursor and reconstructing it loses nothing.
pub proof fn lemma_stream_deterministic<R: TransitionRule>(
    s1: DateRangeIterator<R>,
    s2: DateRangeIterator<R>,
    n: nat,
)
    requires
        s1.date == s2.date,
        s1.rule == s2.rule,
    ensures
        spec_take(s1.date, s1.rule, n) == spec_take(s2.date, s2.rule, n),
        spec_after(s1.date, s1.rule, n) == spec_after(s2.date, s2.rule, n),
{
}

/// Forward-progress law of the sequence primitive: whatever the rule, the
/// dates a cursor yields are strictly increasing, so no date is ever yielded
/// twice.
pub proof fn lemma_stream_strictly_increasing<R: TransitionRule>(
    date: Option<Date>,
    rule: R,
    n: nat,
)
    requires
        rule.wf(),
        date matches Some(d) ==> d.wf(),
    ensures
        ({
            let s = spec_take(date, rule, n);
            &&& forall|i: int| 0 <= i < s.len() ==> (#[trigger] s[i]).wf()
            &&& date matches Some(d) ==> forall|i: int|
                0 <= i < s.len() ==> day_number(d) <= day_number(#[trigger] s[i])
            &&& forall|i: int, j: int|
                0 <= i < j < s.len() ==> day_number(#[trigger] s[i]) < day_number(#[trigger] s[j])
        }),
    decreases n,
{
    if n > 0 {
        match date {
            None => {},
            Some(d) => {
                rule.next_advances(d);
                let next = rule.spec_next(d);
                lemma_stream_strictly_increasing(next, rule, (n - 1) as nat);
                let s = spec_take(date, rule, n);
                let s2 = spec_take(next, rule, (n - 1) as nat);
                assert(s == seq![d] + s2);
                assert forall|i: int, j: int| 0 <= i < j < s.len() implies day_number(
                    #[trigger] s[i],
                ) < day_number(#[trigger] s[j]) by {
                    assert(s[j] == s2[j - 1]);
                    if i > 0 {
                        assert(s[i] == s2[i - 1]);
                    } else {
                        let e = next->Some_0;
                        assert(day_number(e) <= day_number(s2[j - 1]));
                    }
                }
            },
        }
    }
}

/// Spacing law of the weekday sequence: pulled from a date that falls on the
/// target weekday, the stream yields that date and then dates exactly seven
/// days apart, every one of them on the target weekday.
pub proof fn lemma_weekday_stream_spacing(e: Date, w: Weekday, n: nat)
    requires
        e.wf(),
        weekday_of(e) == w,
    ensures
        ({
            let s = spec_take(Some(e), WeekdayRule { target: w }, n);
            &&& n > 0 ==> s.len() > 0 && s[0] == e
            &&& forall|i: int| 0 <= i < s.len() ==> #[trigger] weekday_of(s[i]) == w
            &&& forall|i: int|
                0 <= i < s.len() - 1 ==> day_number(#[trigger] s[i + 1]) == day_number(s[i]) + 7
        }),
    decreases n,
{
    let rule = WeekdayRule { target: w };
    if n > 0 {
        let s = spec_take(Some(e), rule, n);
        match rule.spec_next(e) {
            None => {
                assert(spec_take(rule.spec_next(e), rule, (n - 1) as nat) =~= Seq::<
                    Date,
                >::empty());
                assert(s =~= seq![e]);
            },
            Some(e2) => {
                lemma_scan_props(e, w, 7);
                lemma_weekday_rule_period(e, w);
                lemma_weekday_stream_spacing(e2, w, (n - 1) as nat);
                let s2 = spec_take(Some(e2), rule, (n - 1) as nat);
                assert(s == seq![e] + s2);
                assert forall|i: int| 0 <= i < s.len() implies #[trigger] weekday_of(s[i])
                    == w by {
                    if i > 0 {
                        assert(s[i] == s2[i - 1]);
                    }
                }
                assert forall|i: int| 0 <= i < s.len() - 1 implies day_number(#[trigger] s[i + 1])
                    == day_number(s[i]) + 7 by {
                    if i == 0 {
                        assert(s2.len() > 0);
                        assert(s[1] == s2[0]);
                        assert(s2[0] == e2);
                    } else {
                        assert(0 <= i - 1 < s2.len() - 1);
                        assert(day_number(s2[(i - 1) + 1]) == day_number(s2[i - 1]) + 7);
                        assert(s[i] == s2[i - 1]);
                        assert(s[i + 1] == s2[(i - 1) + 1]);
                    }
                }
            },
        }
    }
}

/// The ordered sequence of every occurrence of weekday `day` strictly after
/// `date`: the seed itself is skipped, so a seed already on `day` is not
/// yielded as if it were a recurrence, and the first yielded date lies one
/// through seven days past the seed.
pub fn weekday_iterator(date: Date, day: Weekday) -> (s: DateRangeIterator<WeekdayRule>)
    requires
        date.wf(),
    ensures
        s.rule == (WeekdayRule { target: day }),
        s.date == (WeekdayRule { target: day }).spec_next(date),
        s.wf(),
{
    let rule = WeekdayRule { target: day };
    let first = rule.advance(&date);
    DateRangeIterator { date: first, rule }
}

/// The sequence of the `ord`-th occurrence of weekday `day` in each calendar
/// month after `date`'s month; the seed's own month is skipped. Ordinals
/// outside 1 through 4 are rejected at construction.
pub fn month_ordinal_iterator(date: Date, day: Weekday, ord: u32) -> (r: Result<
    DateRangeIterator<MonthOrdinalRule>,
    RuleError,
>)
    requires
        date.wf(),
    ensures
        r is Ok <==> 1 <= ord <= 4,
        r matches Ok(s) ==> {
            let rule = (MonthOrdinalRule { target: day, ord: MonthOrdinal::Nth(ord) });
            s.rule == rule && s.date == rule.spec_next(date) && s.wf()
        },
        r is Err ==> r == Err::<DateRangeIterator<MonthOrdinalRule>, RuleError>(
            RuleError::InvalidOrdinal,
        ),
{
    match MonthOrdinalRule::nth(day, ord) {
        Err(e) => Err(e),
        Ok(rule) => {
            let first = rule.advance(&date);
            Ok(DateRangeIterator { date: first, rule })
        },
    }
}

/// The sequence of the last occurrence of weekday `day` in each calendar
/// month after `date`'s month; the seed's own month is skipped.
pub fn month_last_iterator(date: Date, day: Weekday) -> (s: DateRangeIterator<MonthOrdinalRule>)
    requires
        date.wf(),
    ensures
        s.rule == (MonthOrdinalRule { target: day, ord: MonthOrdinal::Last }),
        s.date == (MonthOrdinalRule { target: day, ord: MonthOrdinal::Last }).spec_next(date),
        s.wf(),
{
    let rule = MonthOrdinalRule::last(day);
    let first = rule.advance(&date);
    DateRangeIterator { date: first, rule }
}

/// The sequence of the `ordinal`-th day of each year after `date`'s year; the
/// seed's own year is skipped. Ordinals outside 1 through 366 are rejected at
/// construction.
pub fn year_day_iterator(date: Date, ordinal: u32) -> (r: Result<
    DateRangeIterator<YearDayRule>,
    RuleError,
>)
    requires
        date.wf(),
    ensures
        r is Ok <==> 1 <= ordinal <= 366,
        r matches Ok(s) ==> {
            let rule = (YearDayRule { ordinal });
            s.rule == rule && s.date == rule.spec_next(date) && s.wf()
        },
        r is Err ==> r == Err::<DateRangeIterator<YearDayRule>, RuleError>(
            RuleError::InvalidYearDay,
        ),
{
    match YearDayRule::new(ordinal) {
        Err(e) => Err(e),
        Ok(rule) => {
            let first = rule.advance(&date);
            Ok(DateRangeIterator { date: first, rule })
        },
    }
}

/// Relies on chrono's `Local::now` and the `Datelike` accessors of the
/// `NaiveDate` it carries: the year, month and day of a `NaiveDate` always
/// name a valid proleptic Gregorian calendar date.
#[verifier::external_body]
fn today_ymd() -> (r: (i32, u32, u32))
    ensures
        1 <= r.1 <= 12,
        1 <= r.2 <= spec_days_in_month(r.0 as int, r.1 as int),
{
    let d = chrono::Local::now().date_naive();
    (chrono::Datelike::year(&d), chrono::Datelike::month(&d), chrono::Datelike::day(&d))
}

} // verus!
