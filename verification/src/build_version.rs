//! The version that a build shows: a tag, a commit, or the time of the build.
use vstd::prelude::*;

use crate::text::{chars_of, decimal, decimal_chars, push_text, push_two_digits, same_text, text_of, trim, trimmed, two_digits};

verus! {

/// Whether the year `y` has a 29th of February.
pub open spec fn leap(y: int) -> bool {
    y % 4 == 0 && (y % 100 != 0 || y % 400 == 0)
}

/// The number of days of the year `y`.
pub open spec fn year_length(y: int) -> int {
    if leap(y) {
        366
    } else {
        365
    }
}

/// The number of days of the month `m` of the year `y`.
pub open spec fn month_length(y: int, m: int) -> int {
    if m == 2 {
        if leap(y) {
            29
        } else {
            28
        }
    } else if m == 4 || m == 6 || m == 9 || m == 11 {
        30
    } else {
        31
    }
}

/// The number of days from the beginning of 1970 to the beginning of `y`.
pub open spec fn days_before_year(y: int) -> int
    decreases y,
{
    if y <= 1970 {
        0
    } else {
        days_before_year(y - 1) + year_length(y - 1)
    }
}

/// The number of days of the year `y` before its month `m`.
pub open spec fn days_before_month(y: int, m: int) -> int
    decreases m,
{
    if m <= 1 {
        0
    } else {
        days_before_month(y, m - 1) + month_length(y, m - 1)
    }
}

/// Whether there is such a day.
pub open spec fn is_date(y: int, m: int, d: int) -> bool {
    1970 <= y && 1 <= m <= 12 && 1 <= d <= month_length(y, m)
}

/// The number of days from the first of January 1970 to a date.
pub open spec fn day_number(y: int, m: int, d: int) -> int {
    days_before_year(y) + days_before_month(y, m) + d - 1
}

/// The text of a date and of the second `t` of its day.
pub open spec fn stamp_text(y: nat, m: nat, d: nat, t: nat) -> Seq<char> {
    decimal(y) + two_digits(m) + two_digits(d) + "-"@ + two_digits(t / 3600) + two_digits(
        t % 3600 / 60,
    ) + two_digits(t % 60)
}

/// Whether `r` is the text of the time `secs` seconds after the beginning of
/// 1970.
pub open spec fn is_stamp(secs: nat, r: Seq<char>) -> bool {
    exists|y: nat, m: nat, d: nat|
        is_date(y as int, m as int, d as int) && day_number(y as int, m as int, d as int) == secs
            / 86400 && r == #[trigger] stamp_text(y, m, d, secs % 86400)
}

/// The number of leap days before the year `y`.
spec fn leap_days(y: int) -> int {
    (y - 1) / 4 - (y - 1) / 100 + (y - 1) / 400
}

/// The days before a year, counted at once.
proof fn lemma_days_before_year(y: int)
    requires
        1970 <= y,
    ensures
        days_before_year(y) == 365 * (y - 1970) + leap_days(y) - leap_days(1970),
    decreases y,
{
    if y > 1970 {
        lemma_days_before_year(y - 1);
        let p = y - 1;
        assert(leap_days(y) - leap_days(p) == if leap(p) {
            1int
        } else {
            0
        });
    }
}

/// The days before each month.
proof fn lemma_days_before_month(y: int)
    ensures
        days_before_month(y, 1) == 0,
        days_before_month(y, 2) == 31,
        ({
            let feb = month_length(y, 2);
            &&& days_before_month(y, 3) == 31 + feb
            &&& days_before_month(y, 4) == 62 + feb
            &&& days_before_month(y, 5) == 92 + feb
            &&& days_before_month(y, 6) == 123 + feb
            &&& days_before_month(y, 7) == 153 + feb
            &&& days_before_month(y, 8) == 184 + feb
            &&& days_before_month(y, 9) == 215 + feb
            &&& days_before_month(y, 10) == 245 + feb
            &&& days_before_month(y, 11) == 276 + feb
            &&& days_before_month(y, 12) == 306 + feb
        }),
{
    reveal_with_fuel(days_before_month, 13);
}

/// Later days have larger numbers within a year.
proof fn lemma_month_within_year(y: int, m: int, d: int)
    requires
        1 <= m <= 12,
        1 <= d <= month_length(y, m),
    ensures
        0 <= days_before_month(y, m) + d - 1 < year_length(y),
{
    lemma_days_before_month(y);
}

/// The beginning of a later year is a year later at least.
proof fn lemma_later_year(a: int, b: int)
    requires
        1970 <= a < b,
    ensures
        days_before_year(a) + year_length(a) <= days_before_year(b),
    decreases b,
{
    if a < b - 1 {
        lemma_later_year(a, b - 1);
    }
}

/// Two dates with one number are one date.
pub proof fn lemma_dates_are_unique(y: int, m: int, d: int, v: int, n: int, e: int)
    requires
        is_date(y, m, d),
        is_date(v, n, e),
        day_number(y, m, d) == day_number(v, n, e),
    ensures
        y == v && m == n && d == e,
{
    lemma_month_within_year(y, m, d);
    lemma_month_within_year(v, n, e);
    if y < v {
        lemma_later_year(y, v);
    }
    if v < y {
        lemma_later_year(v, y);
    }
    lemma_days_before_month(y);
}

/// The date of a day, `days` days after the first of January 1970.
fn date_of(days: u64) -> (r: (u64, u64, u64))
    requires
        days <= u64::MAX / 86400,
    ensures
        is_date(r.0 as int, r.1 as int, r.2 as int),
        day_number(r.0 as int, r.1 as int, r.2 as int) == days,
{
    // Years that begin with March end with the day that only some of them have.
    let z: u64 = days + 719_468;
    let era: u64 = z / 146_097;
    let in_era: u64 = z % 146_097;
    let century: u64 = if in_era / 36_524 < 4 {
        in_era / 36_524
    } else {
        3
    };
    let in_century: u64 = in_era - century * 36_524;
    let group: u64 = in_century / 1461;
    let in_group: u64 = in_century % 1461;
    let single: u64 = if in_group / 365 < 4 {
        in_group / 365
    } else {
        3
    };
    let in_year: u64 = in_group - single * 365;
    let march_year: u64 = era * 400 + century * 100 + group * 4 + single;
    let month: u64 = (5 * in_year + 2) / 153;
    let d: u64 = in_year - (153 * month + 2) / 5 + 1;
    let m: u64 = if month < 10 {
        month + 3
    } else {
        month - 9
    };
    let y: u64 = if m <= 2 {
        march_year + 1
    } else {
        march_year
    };
    proof {
        lemma_date_of(days as int, era as int, century as int, group as int, single as int, in_year as int);
    }
    (y, m, d)
}

/// The month and the day of a day of a year that begins with March, where the
/// year `y` holds that month.
proof fn lemma_march_month(y: int, in_year: int)
    requires
        0 <= in_year <= 365,
        in_year == 365 ==> leap(y),
    ensures
        ({
            let month = (5 * in_year + 2) / 153;
            let d = in_year - (153 * month + 2) / 5 + 1;
            let m = if month < 10 {
                month + 3
            } else {
                month - 9
            };
            &&& 1 <= m <= 12
            &&& 1 <= d <= month_length(y, m)
            &&& (month < 10) == (in_year < 306)
            &&& days_before_month(y, m) + d - 1 == if month < 10 {
                31 + month_length(y, 2) + in_year
            } else {
                in_year - 306
            }
        }),
{
    lemma_days_before_month(y);
    let month = (5 * in_year + 2) / 153;
    assert(0 <= month <= 11);
    assert(month == 0 || month == 1 || month == 2 || month == 3 || month == 4 || month == 5
        || month == 6 || month == 7 || month == 8 || month == 9 || month == 10 || month == 11);
}

/// The leap days before the March of the year `y`, counted at once.
proof fn lemma_leap_days(y: int)
    requires
        0 <= y,
    ensures
        leap_days(y + 1) == y / 4 - y / 100 + y / 400,
        leap_days(y) + month_length(y, 2) == leap_days(y + 1) + 28,
{
}

/// The date at a place of the calendar whose years begin with March.
proof fn lemma_date_of(
    days: int,
    era: int,
    century: int,
    group: int,
    single: int,
    in_year: int,
)
    requires
        0 <= days,
        days + 719_468 == era * 146_097 + century * 36_524 + group * 1461 + single * 365 + in_year,
        0 <= era,
        0 <= century <= 3,
        0 <= group <= 24,
        0 <= single <= 3,
        0 <= in_year <= 365,
        in_year == 365 ==> single == 3 && (group < 24 || century == 3),
    ensures
        ({
            let month = (5 * in_year + 2) / 153;
            let d = in_year - (153 * month + 2) / 5 + 1;
            let m = if month < 10 {
                month + 3
            } else {
                month - 9
            };
            let march_year = era * 400 + century * 100 + group * 4 + single;
            let y = if m <= 2 {
                march_year + 1
            } else {
                march_year
            };
            is_date(y, m, d) && day_number(y, m, d) == days
        }),
{
    let march_year = era * 400 + century * 100 + group * 4 + single;
    let y = if in_year < 306 {
        march_year
    } else {
        march_year + 1
    };
    assert(march_year / 4 == era * 100 + century * 25 + group);
    assert(march_year / 100 == era * 4 + century);
    assert(march_year / 400 == era);
    lemma_leap_days(march_year);
    assert(leap_days(march_year + 1) == 97 * era + 24 * century + group);
    assert(leap_days(1970) == 477);
    assert(days == 365 * (march_year - 1970) + leap_days(march_year + 1) - 418 + in_year);
    assert(leap_days(march_year + 1) <= march_year / 4);
    assert(march_year >= 1969);
    if march_year == 1969 {
        assert(leap_days(march_year + 1) == 477);
    }
    assert(y >= 1970);
    lemma_days_before_year(y);
    if in_year == 365 {
        assert((march_year + 1) % 4 == 0);
        assert(leap(march_year + 1));
    }
    lemma_march_month(y, in_year);
}

/// The time `secs` seconds after the beginning of 1970, as year, month, day and
/// time of the day.
pub fn build_timestamp(secs: u64) -> (r: String)
    ensures
        is_stamp(secs as nat, r@),
{
    let t: u64 = secs % 86400;
    let (y, m, d) = date_of(secs / 86400);
    let mut out = decimal_chars(y);
    push_two_digits(&mut out, m);
    push_two_digits(&mut out, d);
    out.push('-');
    push_two_digits(&mut out, t / 3600);
    push_two_digits(&mut out, t % 3600 / 60);
    push_two_digits(&mut out, t % 60);
    proof {
        reveal_strlit("-");
        assert(out@ =~= stamp_text(y as nat, m as nat, d as nat, t as nat));
    }
    text_of(out.as_slice())
}

/// What is known of the state of the sources: what each question to git was
/// answered with, where it was.
pub struct SourceState {
    /// A version that was given from outside.
    pub given: Option<String>,
    /// The tag of the commit.
    pub tag: Option<String>,
    /// Whether the sources are in a repository.
    pub repository: bool,
    /// The short name of the commit.
    pub commit: Option<String>,
    /// The changes that are not committed.
    pub changes: Option<String>,
    /// The name of the branch.
    pub branch: Option<String>,
}

/// An answer without the blanks around it, unless nothing is left of it.
pub open spec fn answer(t: Option<String>) -> Option<Seq<char>> {
    match t {
        Some(s) => if trimmed(s@).len() > 0 {
            Some(trimmed(s@))
        } else {
            None
        },
        None => None,
    }
}

/// The name of a commit with its branch, where that is a branch of its own, and
/// a mark where there are changes.
pub open spec fn commit_text(
    commit: Seq<char>,
    branch: Option<Seq<char>>,
    changed: bool,
) -> Seq<char> {
    let suffix: Seq<char> = if changed {
        "+dirty"@
    } else {
        ""@
    };
    match branch {
        Some(b) => if b != "main"@ && b != "HEAD"@ {
            b + "-"@ + commit + suffix
        } else {
            commit + suffix
        },
        None => commit + suffix,
    }
}

/// The version that the sources themselves give: the given one, a tag, or a
/// commit.
pub open spec fn source_version(s: SourceState) -> Option<Seq<char>> {
    if answer(s.given) is Some {
        answer(s.given)
    } else if answer(s.tag) is Some {
        answer(s.tag)
    } else if s.repository && answer(s.commit) is Some {
        Some(commit_text(answer(s.commit)->0, answer(s.branch), answer(s.changes) is Some))
    } else {
        None
    }
}

/// An answer without the blanks around it.
fn answer_of(t: &Option<String>) -> (r: Option<String>)
    ensures
        crate::text::option_text(r) == answer(*t),
{
    match t {
        None => None,
        Some(s) => {
            let cs = chars_of(s.as_str());
            let kept: &[char] = trim(cs.as_slice());
            if kept.len() > 0 {
                Some(text_of(kept))
            } else {
                None
            }
        },
    }
}

/// The version of a build of these sources at `secs` seconds after the
/// beginning of 1970: what the sources give, or else the time.
pub fn build_version(s: &SourceState, secs: u64) -> (r: String)
    ensures
        match source_version(*s) {
            Some(v) => r@ == v,
            None => is_stamp(secs as nat, r@),
        },
{
    if let Some(v) = answer_of(&s.given) {
        return v;
    }
    if let Some(v) = answer_of(&s.tag) {
        return v;
    }
    if !s.repository {
        return build_timestamp(secs);
    }
    let commit = match answer_of(&s.commit) {
        Some(c) => c,
        None => {
            return build_timestamp(secs);
        },
    };
    let changed: bool = answer_of(&s.changes).is_some();
    let mut out: Vec<char> = Vec::new();
    if let Some(b) = answer_of(&s.branch) {
        if !same_text(b.as_str(), "main") && !same_text(b.as_str(), "HEAD") {
            push_text(&mut out, b.as_str());
            push_text(&mut out, "-");
        }
    }
    push_text(&mut out, commit.as_str());
    if changed {
        push_text(&mut out, "+dirty");
    }
    proof {
        reveal_strlit("");
        assert(out@ =~= commit_text(commit@, answer(s.branch), changed));
    }
    text_of(out.as_slice())
}

/// Years: every fourth is a leap year, but for the hundreds that are no four
/// hundreds.
pub proof fn lemma_calendar(y: int)
    ensures
        y % 400 == 0 ==> leap(y),
        y % 100 == 0 && y % 400 != 0 ==> !leap(y),
        y % 4 == 0 && y % 100 != 0 ==> leap(y),
        y % 4 != 0 ==> !leap(y),
        year_length(y) == 365 + (month_length(y, 2) - 28),
        month_length(y, 2) == (if leap(y) {
            29int
        } else {
            28
        }),
        month_length(y, 1) == 31 && month_length(y, 3) == 31 && month_length(y, 4) == 30
            && month_length(y, 5) == 31 && month_length(y, 6) == 30 && month_length(y, 7) == 31
            && month_length(y, 8) == 31 && month_length(y, 9) == 30 && month_length(y, 10) == 31
            && month_length(y, 11) == 30 && month_length(y, 12) == 31,
        year_length(y) == days_before_month(y, 12) + 31,
{
    reveal_with_fuel(days_before_month, 13);
}

/// Days follow each other: the day after the last of a month is the first of the
/// next, and the day after the last of a year the first of the next. The first is
/// that of 1970.
pub proof fn lemma_days_follow(y: int, m: int, d: int)
    requires
        is_date(y, m, d),
    ensures
        day_number(1970, 1, 1) == 0,
        d < month_length(y, m) ==> day_number(y, m, d + 1) == day_number(y, m, d) + 1,
        d == month_length(y, m) && m < 12 ==> day_number(y, m + 1, 1) == day_number(y, m, d) + 1,
        d == month_length(y, m) && m == 12 ==> day_number(y + 1, 1, 1) == day_number(y, m, d) + 1,
{
    lemma_calendar(y);
    assert(days_before_month(1970, 1) == 0);
    assert(days_before_month(y + 1, 1) == 0);
    assert(days_before_year(y + 1) == days_before_year(y) + year_length(y));
}

/// A time is written as its date and its hours, minutes and seconds, two digits
/// each behind the year.
pub proof fn lemma_stamp_is_the_time(y: nat, m: nat, d: nat, h: nat, min: nat, s: nat)
    requires
        h < 24,
        min < 60,
        s < 60,
    ensures
        stamp_text(y, m, d, 3600 * h + 60 * min + s) == decimal(y) + two_digits(m) + two_digits(d)
            + "-"@ + two_digits(h) + two_digits(min) + two_digits(s),
{
    let t: nat = 3600 * h + 60 * min + s;
    assert(t / 3600 == h && t % 3600 / 60 == min && t % 60 == s);
}

/// The version that was given counts before a tag, a tag before a commit; a
/// commit has its branch in front unless that is the main one or none, and a mark
/// behind it where there are changes.
pub proof fn lemma_version_of_sources(s: SourceState)
    ensures
        answer(s.given) is Some ==> source_version(s) == answer(s.given),
        answer(s.given) is None && answer(s.tag) is Some ==> source_version(s) == answer(s.tag),
        answer(s.given) is None && answer(s.tag) is None && (!s.repository || answer(
            s.commit,
        ) is None) ==> source_version(s) is None,
        answer(s.given) is None && answer(s.tag) is None && s.repository && answer(s.commit) is Some
            ==> ({
            let own: bool = answer(s.branch) is Some && answer(s.branch)->0 != "main"@ && answer(
                s.branch,
            )->0 != "HEAD"@;
            let named: Seq<char> = if own {
                answer(s.branch)->0 + "-"@ + answer(s.commit)->0
            } else {
                answer(s.commit)->0
            };
            source_version(s) == Some(
                if answer(s.changes) is Some {
                    named + "+dirty"@
                } else {
                    named
                },
            )
        }),
{
    reveal_strlit("");
    if answer(s.commit) is Some {
        let c = answer(s.commit)->0;
        assert(c + ""@ =~= c);
        if answer(s.branch) is Some {
            let n = answer(s.branch)->0 + "-"@ + c;
            assert(n + ""@ =~= n);
        }
    }
}

} // verus!
