//! Period filtering for the report consumers: a half-open timestamp
//! range with optional bounds, the flag-driven resolution of a range from
//! the caller's period arguments, and event filtering by range.

use vstd::prelude::*;

use crate::calendar::{days_before_month, days_before_year, days_in_month, ts_from_ymd, MAX_TS};
use crate::model::{Event, EventView};
use crate::numbers::{digits_val, is_digit};
use crate::text::{split_all, split_fields, to_chars};

verus! {

/// A half-open timestamp range: `start` inclusive, `end` exclusive,
/// either bound optional.
#[derive(Clone, Copy, Debug, PartialEq, Eq, Structural)]
pub struct DateRange {
    pub start: Option<i64>,
    pub end: Option<i64>,
}

/// Whether a timestamp falls within a range.
pub open spec fn in_range(r: DateRange, ts: int) -> bool {
    &&& (match r.start {
        Some(s) => ts >= s,
        None => true,
    })
    &&& (match r.end {
        Some(e) => ts < e,
        None => true,
    })
}

impl DateRange {
    /// The unbounded range: no filtering.
    pub fn all_time() -> (r: DateRange)
        ensures
            r.start is None && r.end is None,
    {
        DateRange { start: None, end: None }
    }

    /// The last `n` days before `now`.
    pub fn last_days(now: i64, n: i64) -> (r: DateRange)
        requires
            0 <= now <= MAX_TS,
            0 <= n <= 100000,
        ensures
            r.start == Some((now - n * 86400) as i64),
            r.end is None,
    {
        proof {
            assert(n * 86400 <= 100000 * 86400) by (nonlinear_arith)
                requires
                    0 <= n <= 100000,
            ;
            assert(n * 86400 >= 0) by (nonlinear_arith)
                requires
                    n >= 0,
            ;
        }
        DateRange { start: Some(now - n * 86400), end: None }
    }

    /// The calendar month `year`-`month`: from its first midnight to the
    /// next month's first midnight. `None` when the month is not a
    /// supported calendar month (or the following month is not).
    pub fn specific_month(year: i64, month: u32) -> (r: Option<DateRange>)
        ensures
            match r {
                Some(d) => {
                    &&& 1970 <= year <= 9999 && 1 <= month <= 12
                    &&& d.start matches Some(s) && s as int == (days_before_year(year as int)
                        + days_before_month(year as int, month as int)) * 86400
                    &&& d.end matches Some(e) && e as int == (if month == 12 {
                        days_before_year(year as int + 1)
                    } else {
                        days_before_year(year as int) + days_before_month(
                            year as int,
                            month as int + 1,
                        )
                    }) * 86400
                },
                None => !(1970 <= year <= 9999 && 1 <= month <= 12) || (year == 9999 && month
                    == 12),
            },
    {
        let start = match ts_from_ymd(year, month, 1) {
            Some(s) => s,
            None => {
                return None;
            },
        };
        let (ny, nm) = if month == 12 {
            (year + 1, 1u32)
        } else {
            (year, month + 1)
        };
        let end = match ts_from_ymd(ny, nm, 1) {
            Some(e) => e,
            None => {
                return None;
            },
        };
        Some(DateRange { start: Some(start), end: Some(end) })
    }

    /// The calendar year `year`: from its first midnight to the next
    /// year's first midnight. `None` when the year (or the following
    /// year) is not supported.
    pub fn specific_year(year: i64) -> (r: Option<DateRange>)
        ensures
            match r {
                Some(d) => {
                    &&& 1970 <= year <= 9998
                    &&& d.start matches Some(s) && s as int == days_before_year(year as int)
                        * 86400
                    &&& d.end matches Some(e) && e as int == days_before_year(year as int + 1)
                        * 86400
                },
                None => !(1970 <= year <= 9998),
            },
    {
        let start = match ts_from_ymd(year, 1, 1) {
            Some(s) => s,
            None => {
                return None;
            },
        };
        let end = match ts_from_ymd(year + 1, 1, 1) {
            Some(e) => e,
            None => {
                return None;
            },
        };
        Some(DateRange { start: Some(start), end: Some(end) })
    }

    /// A custom range from optional midnight bounds.
    pub fn custom(from: Option<i64>, to: Option<i64>) -> (r: DateRange)
        ensures
            r.start == from && r.end == to,
    {
        DateRange { start: from, end: to }
    }

    /// Whether `ts` falls within this range.
    pub fn contains(&self, ts: i64) -> (r: bool)
        ensures
            r == in_range(*self, ts as int),
    {
        let after_start = match self.start {
            Some(s) => ts >= s,
            None => true,
        };
        let before_end = match self.end {
            Some(e) => ts < e,
            None => true,
        };
        after_start && before_end
    }
}

/// The events of `es` whose timestamps fall in `r`, in order.
pub open spec fn filtered_events(es: Seq<EventView>, r: DateRange) -> Seq<EventView>
    decreases es.len(),
{
    if es.len() == 0 {
        Seq::empty()
    } else {
        let rest = filtered_events(es.drop_last(), r);
        if in_range(r, es.last().timestamp) {
            rest.push(es.last())
        } else {
            rest
        }
    }
}

/// Keeps the events within the range, in order.
pub fn filter_events(events: &Vec<Event>, range: &DateRange) -> (r: Vec<Event>)
    ensures
        r.deep_view() == filtered_events(events.deep_view(), *range),
{
    let mut r: Vec<Event> = Vec::new();
    let mut i: usize = 0;
    proof {
        assert(events.deep_view().subrange(0, 0) =~= Seq::<EventView>::empty());
        assert(r.deep_view() =~~= filtered_events(events.deep_view().subrange(0, 0), *range));
    }
    while i < events.len()
        invariant
            i <= events@.len(),
            r.deep_view() == filtered_events(events.deep_view().subrange(0, i as int), *range),
        decreases events@.len() - i,
    {
        let ghost before = r.deep_view();
        proof {
            let pre = events.deep_view().subrange(0, i as int);
            let post = events.deep_view().subrange(0, i + 1 as int);
            assert(post.drop_last() =~= pre);
            assert(post.last() == events.deep_view()[i as int]);
        }
        if range.contains(events[i].timestamp) {
            r.push(events[i].clone());
            proof {
                assert(r.deep_view() =~~= before.push(events.deep_view()[i as int]));
            }
        }
        i = i + 1;
    }
    proof {
        assert(events.deep_view().subrange(0, events@.len() as int) =~= events.deep_view());
    }
    r
}

/// The value of a plain digit run, leading zeroes allowed; `None` when
/// empty, non-digit, or beyond the machine word.
pub open spec fn lenient_number(s: Seq<char>) -> Option<u64> {
    if s.len() > 0 && (forall|i: int| 0 <= i < s.len() ==> is_digit(#[trigger] s[i]))
        && digits_val(s) <= u64::MAX {
        Some(digits_val(s) as u64)
    } else {
        None
    }
}

/// Parses a digit run, leading zeroes allowed.
fn parse_lenient(s: &Vec<char>, from: usize, to: usize) -> (r: Option<u64>)
    requires
        from <= to <= s@.len(),
    ensures
        r == lenient_number(s@.subrange(from as int, to as int)),
{
    let ghost piece = s@.subrange(from as int, to as int);
    if from == to {
        return None;
    }
    let mut acc: u64 = 0;
    let mut i: usize = from;
    while i < to
        invariant
            from <= i <= to <= s@.len(),
            piece == s@.subrange(from as int, to as int),
            forall|k: int| from <= k < i ==> is_digit(#[trigger] s@[k]),
            acc == digits_val(s@.subrange(from as int, i as int)),
        decreases to - i,
    {
        let d = match crate::numbers::char_to_digit(s[i]) {
            Some(d) => d,
            None => {
                proof {
                    assert(!is_digit(piece[i - from]));
                }
                return None;
            },
        };
        if acc > (u64::MAX - d) / 10 {
            proof {
                let p = s@.subrange(from as int, i + 1 as int);
                assert(p.drop_last() =~= s@.subrange(from as int, i as int));
                assert(p.last() == s@[i as int]);
                assert(digits_val(p) == acc * 10 + d);
                assert(acc * 10 + d > u64::MAX) by (nonlinear_arith)
                    requires
                        acc > (u64::MAX - d) / 10,
                        0 <= d <= 9,
                        acc <= u64::MAX,
                ;
                if piece.len() > 0 && (forall|k: int|
                    0 <= k < piece.len() ==> is_digit(#[trigger] piece[k])) {
                    crate::numbers::lemma_digits_val_prefix_le(piece, i + 1 - from);
                    assert(piece.subrange(0, i + 1 - from) =~= p);
                }
            }
            return None;
        }
        proof {
            let p = s@.subrange(from as int, i + 1 as int);
            assert(p.drop_last() =~= s@.subrange(from as int, i as int));
            assert(p.last() == s@[i as int]);
        }
        acc = acc * 10 + d;
        i = i + 1;
    }
    proof {
        assert(s@.subrange(from as int, to as int) =~= piece);
        crate::numbers::lemma_digits_val_nonneg(piece);
    }
    Some(acc)
}

/// The year and month named by a `YYYY-MM` text, `None` on any other
/// text (range validity is the callers' business).
pub open spec fn ym_of_text(s: Seq<char>) -> Option<(u64, u64)> {
    let f = split_fields(s, '-');
    if f.len() != 2 {
        None
    } else {
        match (lenient_number(f[0]), lenient_number(f[1])) {
            (Some(y), Some(m)) => Some((y, m)),
            _ => None,
        }
    }
}

/// Parses a `YYYY-MM` text.
pub fn parse_ym(s: &str) -> (r: Option<(u64, u64)>)
    ensures
        r == ym_of_text(s@),
{
    let chars = to_chars(s);
    let f = split_all(&chars, '-');
    if f.len() != 2 {
        return None;
    }
    proof {
        assert(f.deep_view()[0] == f@[0]@);
        assert(f.deep_view()[1] == f@[1]@);
        assert(f@[0]@.subrange(0, f@[0]@.len() as int) =~= f@[0]@);
        assert(f@[1]@.subrange(0, f@[1]@.len() as int) =~= f@[1]@);
    }
    let y = match parse_lenient(&f[0], 0, f[0].len()) {
        Some(y) => y,
        None => {
            return None;
        },
    };
    let m = match parse_lenient(&f[1], 0, f[1].len()) {
        Some(m) => m,
        None => {
            return None;
        },
    };
    Some((y, m))
}

/// The year, month and day named by a `YYYY-MM-DD` text, `None` on any
/// other text.
pub open spec fn ymd_of_text(s: Seq<char>) -> Option<(u64, u64, u64)> {
    let f = split_fields(s, '-');
    if f.len() != 3 {
        None
    } else {
        match (lenient_number(f[0]), lenient_number(f[1]), lenient_number(f[2])) {
            (Some(y), Some(m), Some(d)) => Some((y, m, d)),
            _ => None,
        }
    }
}

/// Parses a `YYYY-MM-DD` text.
pub fn parse_ymd_text(s: &str) -> (r: Option<(u64, u64, u64)>)
    ensures
        r == ymd_of_text(s@),
{
    let chars = to_chars(s);
    let f = split_all(&chars, '-');
    if f.len() != 3 {
        return None;
    }
    proof {
        assert(f.deep_view()[0] == f@[0]@);
        assert(f.deep_view()[1] == f@[1]@);
        assert(f.deep_view()[2] == f@[2]@);
        assert(f@[0]@.subrange(0, f@[0]@.len() as int) =~= f@[0]@);
        assert(f@[1]@.subrange(0, f@[1]@.len() as int) =~= f@[1]@);
        assert(f@[2]@.subrange(0, f@[2]@.len() as int) =~= f@[2]@);
    }
    let y = match parse_lenient(&f[0], 0, f[0].len()) {
        Some(y) => y,
        None => {
            return None;
        },
    };
    let m = match parse_lenient(&f[1], 0, f[1].len()) {
        Some(m) => m,
        None => {
            return None;
        },
    };
    let d = match parse_lenient(&f[2], 0, f[2].len()) {
        Some(d) => d,
        None => {
            return None;
        },
    };
    Some((y, m, d))
}

/// Why the period arguments could not be resolved to a range.
#[derive(Clone, Copy, Debug, PartialEq, Eq, Structural)]
pub enum RangeError {
    /// A month argument that is not `YYYY-MM` or not a supported month.
    BadMonth,
    /// A year argument that is not `YYYY` or not a supported year.
    BadYear,
    /// A start or end date that is not `YYYY-MM-DD` or not a supported
    /// date.
    BadDate,
}

/// The midnight timestamp of a `YYYY-MM-DD` text within the supported
/// calendar, `None` on any other text.
pub fn parse_date_ts(s: &str) -> (r: Option<i64>)
    ensures
        match r {
            Some(ts) => ({
                &&& ymd_of_text(s@) matches Some((y, m, d))
                &&& 1970 <= y <= 9999 && 1 <= m <= 12
                &&& 1 <= d as int <= days_in_month(y as int, m as int)
                &&& ts as int == (days_before_year(y as int) + days_before_month(
                    y as int,
                    m as int,
                ) + (d - 1)) * 86400
            }),
            None => (match ymd_of_text(s@) {
                Some((y, m, d)) => !(1970 <= y <= 9999 && 1 <= m <= 12 && 1 <= d as int
                    <= days_in_month(y as int, m as int)),
                None => true,
            }),
        },
{
    let (y, m, d) = match parse_ymd_text(s) {
        Some(t) => t,
        None => {
            return None;
        },
    };
    if y > 9999 || m > 12 || d > 31 {
        return None;
    }
    ts_from_ymd(y as i64, m as u32, d as u32)
}

/// What the period arguments resolve to: the last week; a named or
/// trailing month; a named or trailing year; a custom date range; all
/// time; or — with nothing asked for — the current year.
pub open spec fn resolve_spec(
    all: bool,
    week: bool,
    month: Option<Seq<char>>,
    year: Option<Seq<char>>,
    from: Option<Seq<char>>,
    to: Option<Seq<char>>,
    now: int,
    current_year: int,
) -> Result<DateRange, RangeError> {
    if week {
        Ok(DateRange { start: Some((now - 7 * 86400) as i64), end: None })
    } else if month is Some {
        let val = month->Some_0;
        if val.len() == 0 {
            Ok(DateRange { start: Some((now - 30 * 86400) as i64), end: None })
        } else {
            match ym_of_text(val) {
                Some((y, m)) => if 1970 <= y <= 9999 && 1 <= m <= 12 && !(y == 9999 && m == 12) {
                    Ok(month_range(y as int, m as int))
                } else {
                    Err(RangeError::BadMonth)
                },
                None => Err(RangeError::BadMonth),
            }
        }
    } else if year is Some {
        let val = year->Some_0;
        if val.len() == 0 {
            Ok(DateRange { start: Some((now - 365 * 86400) as i64), end: None })
        } else {
            match lenient_number(val) {
                Some(y) => if 1970 <= y <= 9998 {
                    Ok(year_range(y as int))
                } else {
                    Err(RangeError::BadYear)
                },
                None => Err(RangeError::BadYear),
            }
        }
    } else if from is Some || to is Some {
        match (date_bound(from), date_bound(to)) {
            (Ok(f), Ok(t)) => Ok(DateRange { start: f, end: t }),
            _ => Err(RangeError::BadDate),
        }
    } else if all {
        Ok(DateRange { start: None, end: None })
    } else {
        Ok(year_range(current_year))
    }
}

/// The range of one calendar month.
pub open spec fn month_range(y: int, m: int) -> DateRange {
    DateRange {
        start: Some(((days_before_year(y) + days_before_month(y, m)) * 86400) as i64),
        end: Some(
            ((if m == 12 {
                days_before_year(y + 1)
            } else {
                days_before_year(y) + days_before_month(y, m + 1)
            }) * 86400) as i64,
        ),
    }
}

/// The range of one calendar year.
pub open spec fn year_range(y: int) -> DateRange {
    DateRange {
        start: Some((days_before_year(y) * 86400) as i64),
        end: Some((days_before_year(y + 1) * 86400) as i64),
    }
}

/// The optional midnight bound named by an optional date text.
pub open spec fn date_bound(v: Option<Seq<char>>) -> Result<Option<i64>, RangeError> {
    match v {
        None => Ok(None),
        Some(s) => match ymd_of_text(s) {
            Some((y, m, d)) => if 1970 <= y <= 9999 && 1 <= m <= 12 && 1 <= d as int
                <= days_in_month(y as int, m as int) {
                Ok(
                    Some(
                        ((days_before_year(y as int) + days_before_month(y as int, m as int) + (d
                            - 1)) * 86400) as i64,
                    ),
                )
            } else {
                Err(RangeError::BadDate)
            },
            None => Err(RangeError::BadDate),
        },
    }
}

/// Resolves the period arguments into a range: the last week, a month
/// (named `YYYY-MM`, or the last thirty days when unnamed), a year
/// (named `YYYY`, or the last 365 days when unnamed), a custom date
/// range, all time, or — by default — the current year.
pub fn resolve_date_range(
    all: bool,
    week: bool,
    month: &Option<String>,
    year: &Option<String>,
    from: &Option<String>,
    to: &Option<String>,
    now: i64,
    current_year: i64,
) -> (r: Result<DateRange, RangeError>)
    requires
        0 <= now <= MAX_TS,
        1970 <= current_year <= 9998,
    ensures
        ({
            let spec_r = resolve_spec(
                all,
                week,
                match month {
                    Some(v) => Some(v@),
                    None => None,
                },
                match year {
                    Some(v) => Some(v@),
                    None => None,
                },
                match from {
                    Some(v) => Some(v@),
                    None => None,
                },
                match to {
                    Some(v) => Some(v@),
                    None => None,
                },
                now as int,
                current_year as int,
            );
            match r {
                Ok(d) => spec_r == Ok::<DateRange, RangeError>(d),
                Err(e) => spec_r == Err::<DateRange, RangeError>(e),
            }
        }),
{
    if week {
        return Ok(DateRange::last_days(now, 7));
    }
    if let Some(val) = month {
        if val.as_str().is_empty() {
            return Ok(DateRange::last_days(now, 30));
        }
        let (y, m) = match parse_ym(val.as_str()) {
            Some(t) => t,
            None => {
                return Err(RangeError::BadMonth);
            },
        };
        if !(1970 <= y && y <= 9999 && 1 <= m && m <= 12) || (y == 9999 && m == 12) {
            return Err(RangeError::BadMonth);
        }
        return match DateRange::specific_month(y as i64, m as u32) {
            Some(d) => Ok(d),
            None => {
                proof {
                    assert(false);
                }
                Err(RangeError::BadMonth)
            },
        };
    }
    if let Some(val) = year {
        if val.as_str().is_empty() {
            return Ok(DateRange::last_days(now, 365));
        }
        let chars = to_chars(val.as_str());
        proof {
            assert(chars@.subrange(0, chars@.len() as int) =~= chars@);
        }
        let y = match parse_lenient(&chars, 0, chars.len()) {
            Some(y) => y,
            None => {
                return Err(RangeError::BadYear);
            },
        };
        if !(1970 <= y && y <= 9998) {
            return Err(RangeError::BadYear);
        }
        return match DateRange::specific_year(y as i64) {
            Some(d) => Ok(d),
            None => {
                proof {
                    assert(false);
                }
                Err(RangeError::BadYear)
            },
        };
    }
    if from.is_some() || to.is_some() {
        let f: Option<i64> = match from {
            None => None,
            Some(v) => match parse_date_ts(v.as_str()) {
                Some(ts) => Some(ts),
                None => {
                    return Err(RangeError::BadDate);
                },
            },
        };
        let t: Option<i64> = match to {
            None => None,
            Some(v) => match parse_date_ts(v.as_str()) {
                Some(ts) => Some(ts),
                None => {
                    return Err(RangeError::BadDate);
                },
            },
        };
        return Ok(DateRange::custom(f, t));
    }
    if all {
        return Ok(DateRange::all_time());
    }
    match DateRange::specific_year(current_year) {
        Some(d) => Ok(d),
        None => {
            proof {
                assert(false);
            }
            Err(RangeError::BadYear)
        },
    }
}

} // verus!
