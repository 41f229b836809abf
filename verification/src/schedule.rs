use vstd::prelude::*;
use crate::interface::{RulePeriod, Timezone};
use crate::time::MinuteSecond;
use crate::restart::random_below;
use chrono::Datelike;
use std::collections::BTreeMap;
use vstd::std_specs::iter::IteratorSpec;

verus! {

/// A time of day, in seconds after midnight.
#[derive(Clone, Copy, PartialEq, Eq, Structural, Debug)]
pub struct TimeOfDay {
    pub secs: u32,
}

/// A schedule rule: every day at `time`.
pub struct RuleDaily {
    pub time: TimeOfDay,
    pub tz: Option<Timezone>,
}

/// A schedule rule: every week on `weekday` (0 is Monday) at `time`.
pub struct RuleWeekly {
    pub weekday: u8,
    pub time: TimeOfDay,
    pub tz: Option<Timezone>,
}

/// A schedule rule: every month on `day` (from 1; past the month's end, its last day)
/// at `time`.
pub struct RuleMonthly {
    pub day: u32,
    pub time: TimeOfDay,
    pub tz: Option<Timezone>,
}

/// A schedule rule: every year in `month` (1 to 12) on `day` at `time`.
pub struct RuleYearly {
    pub month: u32,
    pub day: u32,
    pub time: TimeOfDay,
    pub tz: Option<Timezone>,
}

/// When a scheduled task is turned on.
pub enum Rule {
    Period(RulePeriod),
    Hourly(MinuteSecond),
    Daily(RuleDaily),
    Weekly(RuleWeekly),
    Monthly(RuleMonthly),
    Yearly(RuleYearly),
}

/// Dates are numbered as chrono numbers them: 0001-01-01 is day 1
/// (`NaiveDate::num_days_from_ce`).
///
/// The date `date` with its day of the month set to `day`, if that day exists in its
/// month.
pub uninterp spec fn chrono_with_day(date: i32, day: u32) -> Option<i32>;

/// The date with its month set to `month`, if that date exists.
pub uninterp spec fn chrono_with_month(date: i32, month: u32) -> Option<i32>;

/// The date `months` months later (the day clamped to the month's last day).
pub uninterp spec fn chrono_date_add_months(date: i32, months: u32) -> Option<i32>;

/// The day before the date, if chrono represents it.
pub uninterp spec fn chrono_pred(date: i32) -> Option<i32>;

/// The day number of 1970-01-01.
pub const UNIX_EPOCH_CE_DAYS: i64 = 719163;

/// `chrono::NaiveDate::with_day` (through `chrono::Datelike`) on the date numbered
/// `date`, `None` where chrono has no such date.  Its result is named
/// `chrono_with_day`.
#[verifier::external_body]
fn date_with_day(date: i32, day: u32) -> (r: Option<i32>)
    ensures
        r == chrono_with_day(date, day),
{
    chrono::NaiveDate::from_num_days_from_ce_opt(date)?.with_day(day).map(|d| d.num_days_from_ce())
}

/// `chrono::NaiveDate::with_month` (through `chrono::Datelike`) on the date numbered
/// `date`.  Its result is named `chrono_with_month`.
#[verifier::external_body]
fn date_with_month(date: i32, month: u32) -> (r: Option<i32>)
    ensures
        r == chrono_with_month(date, month),
{
    chrono::NaiveDate::from_num_days_from_ce_opt(date)?.with_month(month).map(|d| d.num_days_from_ce())
}

/// `chrono::NaiveDate::checked_add_months` on the date numbered `date`.  Its result is
/// named `chrono_date_add_months`.
#[verifier::external_body]
fn date_add_months(date: i32, months: u32) -> (r: Option<i32>)
    ensures
        r == chrono_date_add_months(date, months),
{
    chrono::NaiveDate::from_num_days_from_ce_opt(date)?.checked_add_months(chrono::Months::new(months)).map(
        |d| d.num_days_from_ce(),
    )
}

/// `chrono::NaiveDate::pred_opt` on the date numbered `date`: the day before, as its
/// documentation says; `None` for the first date chrono represents (or a number
/// that is no date).  Its result is named `chrono_pred`.  Dates from 0001-01-02 to
/// well past the year 200000 (chrono's range ends in the year 262142) all have a day
/// before; exactly where the range ends is left unsaid.
#[verifier::external_body]
fn date_pred(date: i32) -> (r: Option<i32>)
    ensures
        r == chrono_pred(date),
        r matches Some(p) ==> p == date - 1,
        2 <= date <= 90_000_000 ==> r == Some((date - 1) as i32),
{
    chrono::NaiveDate::from_num_days_from_ce_opt(date)?.pred_opt().map(|d| d.num_days_from_ce())
}

/// `chrono::NaiveDateTime::and_local_timezone` with `chrono::Local`: the UTC time of a
/// local wall-clock time (given as seconds since 1970 as if it were UTC), if it is
/// neither skipped nor repeated.  The result depends on the machine's time zone, so it
/// has no name; what is stated is that a chrono offset (`FixedOffset`) is less than a
/// day either way.
#[verifier::external_body]
fn local_to_utc(naive: i64) -> (r: Option<i64>)
    ensures
        r matches Some(t) ==> naive - 86400 < t < naive + 86400,
{
    let t = chrono::DateTime::<chrono::Utc>::from_timestamp(naive, 0)?.naive_utc();
    t.and_local_timezone(chrono::Local).single().map(|x| x.timestamp())
}

/// The wall-clock time (seconds since 1970) at `tod` on the date numbered `date`.
pub open spec fn at_time(date: int, tod: TimeOfDay) -> int {
    (date - UNIX_EPOCH_CE_DAYS) * 86400 + tod.secs
}

/// The date numbered `date` of the day `unix_day` days after 1970-01-01.
pub open spec fn ce_day(unix_day: int) -> int {
    unix_day + UNIX_EPOCH_CE_DAYS
}

/// The day of the week of the date numbered `date`, 0 being Monday (1970-01-01 was a
/// Thursday).
pub open spec fn weekday_of(date: int) -> int {
    (date - UNIX_EPOCH_CE_DAYS + 3) % 7
}

/// The day `day` of the month of `date`, or the month's last day if it has no such
/// day (through the named chrono results).
pub open spec fn month_day(date: i32, day: u32) -> Option<int> {
    match chrono_with_day(date, day) {
        Some(d) => Some(d as int),
        None => match chrono_with_day(date, 1) {
            Some(first) => match chrono_date_add_months(first, 1) {
                Some(next) => match chrono_pred(next) {
                    Some(p) => Some(p as int),
                    None => None,
                },
                None => None,
            },
            None => None,
        },
    }
}

/// The latest time that `now` may be: beyond it no calendar date is formed (chrono's
/// dates end long before).
pub const MAX_NOW: u64 = 100_000_000_000_000;

/// The date numbered `today` as an `i32` (for `now` up to `MAX_NOW`).
pub open spec fn today_of(now: int) -> i32 {
    ce_day(now / 86400) as i32
}

/// The date on which a calendar rule fires in the period (day, week, month or year)
/// of `today`, clamping the day of the month to the month's last day.
pub open spec fn rule_date(today: i32, rule: Rule) -> Option<int> {
    match rule {
        Rule::Daily(_) => Some(today as int),
        Rule::Weekly(r) => Some(today + r.weekday - weekday_of(today as int)),
        Rule::Monthly(r) => match chrono_with_day(today, 1) {
            Some(first) => month_day(first, r.day),
            None => None,
        },
        Rule::Yearly(r) => match chrono_with_day(today, 1) {
            Some(first) => match chrono_with_month(first, r.month) {
                Some(m) => month_day(m, r.day),
                None => None,
            },
            None => None,
        },
        _ => None,
    }
}

/// The date on which a calendar rule fires in the period after that of `today`: the
/// rule's day is clamped again in the next month or year.
pub open spec fn rule_next_date(today: i32, rule: Rule) -> Option<int> {
    match rule {
        Rule::Daily(_) => Some(today + 1),
        Rule::Weekly(r) => Some(today + r.weekday - weekday_of(today as int) + 7),
        Rule::Monthly(r) => match chrono_with_day(today, 1) {
            Some(first) => match chrono_date_add_months(first, 1) {
                Some(next) => month_day(next, r.day),
                None => None,
            },
            None => None,
        },
        Rule::Yearly(r) => match chrono_with_day(today, 1) {
            Some(first) => match chrono_with_month(first, r.month) {
                Some(m) => match chrono_date_add_months(m, 12) {
                    Some(next) => month_day(next, r.day),
                    None => None,
                },
                None => None,
            },
            None => None,
        },
        _ => None,
    }
}

/// The time of day of a calendar rule.
pub open spec fn rule_time(rule: Rule) -> TimeOfDay {
    match rule {
        Rule::Daily(r) => r.time,
        Rule::Weekly(r) => r.time,
        Rule::Monthly(r) => r.time,
        Rule::Yearly(r) => r.time,
        _ => TimeOfDay { secs: 0 },
    }
}

/// The wall-clock time of a rule in the period of `now` (`first`) or the one after,
/// or `None` where a date cannot be formed.
pub open spec fn wall_time(now: int, rule: Rule, first: bool) -> Option<int> {
    match rule {
        Rule::Hourly(ms) => Some(now - now % 3600 + ms.minute * 60 + ms.second + if first {
            0int
        } else {
            3600int
        }),
        _ => match if first {
            rule_date(today_of(now), rule)
        } else {
            rule_next_date(today_of(now), rule)
        } {
            Some(d) => Some(at_time(d, rule_time(rule))),
            None => None,
        },
    }
}

/// A converted time `l` (none if the conversion failed) lies within a day of the
/// wall-clock time `w` it came from, and there is one only where there is a wall time.
pub open spec fn within_day(l: Option<i64>, w: Option<int>) -> bool {
    match l {
        None => true,
        Some(t) => match w {
            Some(x) => x - 86400 < t < x + 86400,
            None => false,
        },
    }
}

/// An integer time as an `i64`.
pub open spec fn opt_i64(t: Option<int>) -> Option<i64> {
    match t {
        Some(x) => Some(x as i64),
        None => None,
    }
}

/// The delay from `now` to the first of two candidate times that is not before it:
/// none if there is no first candidate, and none if both are before `now`.
pub open spec fn pick_delay_of(now: int, c1: Option<i64>, c2: Option<i64>) -> Option<int> {
    match c1 {
        None => None,
        Some(c) => if c >= now {
            Some(c - now)
        } else {
            match c2 {
                Some(t) => if t >= now {
                    Some(t - now)
                } else {
                    None
                },
                None => None,
            }
        },
    }
}

/// The rule uses UTC (no time zone means UTC).
pub open spec fn rule_is_utc(rule: Rule) -> bool {
    match rule {
        Rule::Period(_) | Rule::Hourly(_) => true,
        Rule::Daily(r) => !(r.tz == Some(Timezone::Local)),
        Rule::Weekly(r) => !(r.tz == Some(Timezone::Local)),
        Rule::Monthly(r) => !(r.tz == Some(Timezone::Local)),
        Rule::Yearly(r) => !(r.tz == Some(Timezone::Local)),
    }
}

pub open spec fn rule_ok(rule: Rule) -> bool {
    match rule {
        Rule::Period(p) => p.period.spec_secs() <= u64::MAX,
        Rule::Hourly(ms) => ms.minute < 60 && ms.second < 60,
        Rule::Daily(r) => r.time.secs < 86400,
        Rule::Weekly(r) => r.weekday < 7 && r.time.secs < 86400,
        Rule::Monthly(r) => r.time.secs < 86400,
        Rule::Yearly(r) => r.time.secs < 86400,
    }
}

fn tz_is_local(tz: Option<Timezone>) -> (r: bool)
    ensures
        r == (tz == Some(Timezone::Local)),
{
    match tz {
        Some(Timezone::Local) => true,
        _ => false,
    }
}

/// The delay from `now` to the first of the candidate times `c1`, `c2` that is not
/// before it (see `pick_delay_of`).
pub fn pick_delay(now: u64, c1: Option<i64>, c2: Option<i64>) -> (r: Option<u64>)
    ensures
        r == match pick_delay_of(now as int, c1, c2) {
            Some(x) => Some(x as u64),
            None => None,
        },
        r matches Some(x) ==> x == pick_delay_of(now as int, c1, c2)->0,
{
    match c1 {
        None => None,
        Some(c) => {
            if c as i128 >= now as i128 {
                Some((c as i128 - now as i128) as u64)
            } else {
                match c2 {
                    Some(t) => {
                        if t as i128 >= now as i128 {
                            Some((t as i128 - now as i128) as u64)
                        } else {
                            None
                        }
                    },
                    None => None,
                }
            }
        },
    }
}

fn month_day_exec(date: i32, day: u32) -> (r: Option<i32>)
    ensures
        r matches Some(d) ==> month_day(date, day) == Some(d as int),
        r is None ==> month_day(date, day) is None,
{
    match date_with_day(date, day) {
        Some(d) => Some(d),
        None => {
            let first = date_with_day(date, 1)?;
            let next = date_add_months(first, 1)?;
            date_pred(next)
        },
    }
}

/// The dates of a calendar rule in the period of `today` and the one after.
fn rule_dates(today: i32, rule: &Rule) -> (r: (Option<i32>, Option<i32>))
    requires
        UNIX_EPOCH_CE_DAYS <= today < 2_000_000_000,
        rule matches Rule::Weekly(w) ==> w.weekday < 7,
    ensures
        match rule_date(today, *rule) {
            Some(d) => r.0 == Some(d as i32),
            None => r.0 is None,
        },
        match rule_next_date(today, *rule) {
            Some(d) => r.1 == Some(d as i32),
            None => r.1 is None,
        },
{
    match rule {
        Rule::Daily(_) => (Some(today), Some(today + 1)),
        Rule::Weekly(w) => {
            let wd = ((today as i64 - UNIX_EPOCH_CE_DAYS + 3) % 7) as i32;
            assert(wd as int == weekday_of(today as int));
            let d = today + w.weekday as i32 - wd;
            (Some(d), Some(d + 7))
        },
        Rule::Monthly(m) => match date_with_day(today, 1) {
            Some(first) => {
                let next = match date_add_months(first, 1) {
                    Some(nf) => month_day_exec(nf, m.day),
                    None => None,
                };
                (month_day_exec(first, m.day), next)
            },
            None => (None, None),
        },
        Rule::Yearly(y) => match date_with_day(today, 1) {
            Some(first) => match date_with_month(first, y.month) {
                Some(mo) => {
                    let next = match date_add_months(mo, 12) {
                        Some(nm) => month_day_exec(nm, y.day),
                        None => None,
                    };
                    (month_day_exec(mo, y.day), next)
                },
                None => (None, None),
            },
            None => (None, None),
        },
        _ => (None, None),
    }
}

/// The wall-clock time at `tod` on the date `d`, if any.
fn wall_at(d: Option<i32>, tod: TimeOfDay) -> (r: Option<i64>)
    requires
        tod.secs < 86400,
    ensures
        match d {
            Some(x) => r == Some(at_time(x as int, tod) as i64),
            None => r is None,
        },
{
    match d {
        Some(x) => Some((x as i64 - UNIX_EPOCH_CE_DAYS) * 86400 + tod.secs as i64),
        None => None,
    }
}

/// The delay in seconds from `now` (seconds since 1970) until `rule` next fires, or
/// `None` where a date cannot be formed (or `now` is past `MAX_NOW`) or a local time
/// is skipped or repeated.  With `initial` and a scattered period, a random delay
/// below the period.
pub fn calc_next_delay(now: u64, rule: &Rule, initial: bool) -> (r: Option<u64>)
    requires
        rule_ok(*rule),
    ensures
        match *rule {
            Rule::Period(p) => if !(initial && p.scattered) {
                r == Some(p.period.spec_secs() as u64)
            } else if p.period.spec_secs() > 0 {
                r matches Some(x) && x < p.period.spec_secs()
            } else {
                r == Some(0u64)
            },
            _ => if now > MAX_NOW {
                r is None
            } else if rule_is_utc(*rule) {
                r == match pick_delay_of(
                    now as int,
                    opt_i64(wall_time(now as int, *rule, true)),
                    opt_i64(wall_time(now as int, *rule, false)),
                ) {
                    Some(x) => Some(x as u64),
                    None => None,
                }
            } else {
                &&& wall_time(now as int, *rule, true) is None ==> r is None
                &&& exists|l1: Option<i64>, l2: Option<i64>|
                    #![trigger within_day(l1, wall_time(now as int, *rule, true)), within_day(l2, wall_time(now as int, *rule, false))]
                    within_day(l1, wall_time(now as int, *rule, true)) && within_day(l2, wall_time(now as int, *rule, false))
                        && r == match pick_delay_of(now as int, l1, l2) {
                        Some(x) => Some(x as u64),
                        None => None,
                    }
            },
        },
{
    match rule {
        Rule::Period(p) => {
            let secs = p.period.to_secs();
            if initial && p.scattered {
                if secs == 0 {
                    return Some(0);
                }
                return Some(random_below(secs));
            }
            return Some(secs);
        },
        _ => {},
    }
    if now > MAX_NOW {
        return None;
    }
    let now_i = now as i64;
    let unix_day = now_i / 86400;
    let today = (unix_day + UNIX_EPOCH_CE_DAYS) as i32;
    assert(today as int == ce_day(now as int / 86400));
    assert(today == today_of(now as int));
    let (c1, c2, local): (Option<i64>, Option<i64>, bool) = match rule {
        Rule::Hourly(ms) => {
            let c = now_i - now_i % 3600 + ms.minute as i64 * 60 + ms.second as i64;
            (Some(c), Some(c + 3600), false)
        },
        Rule::Daily(r) => {
            let (d1, d2) = rule_dates(today, rule);
            (wall_at(d1, r.time), wall_at(d2, r.time), tz_is_local(r.tz))
        },
        Rule::Weekly(r) => {
            let (d1, d2) = rule_dates(today, rule);
            (wall_at(d1, r.time), wall_at(d2, r.time), tz_is_local(r.tz))
        },
        Rule::Monthly(r) => {
            let (d1, d2) = rule_dates(today, rule);
            (wall_at(d1, r.time), wall_at(d2, r.time), tz_is_local(r.tz))
        },
        Rule::Yearly(r) => {
            let (d1, d2) = rule_dates(today, rule);
            (wall_at(d1, r.time), wall_at(d2, r.time), tz_is_local(r.tz))
        },
        Rule::Period(_) => (None, None, false),
    };
    assert(c1 == opt_i64(wall_time(now as int, *rule, true)));
    assert(c2 == opt_i64(wall_time(now as int, *rule, false)));
    if local {
        let l1 = match c1 {
            Some(c) => local_to_utc(c),
            None => {
                proof {
                    let n: Option<i64> = None;
                    assert(within_day(n, wall_time(now as int, *rule, true)));
                    assert(within_day(n, wall_time(now as int, *rule, false)));
                    assert(pick_delay_of(now as int, n, n) is None);
                }
                return None;
            },
        };
        let l2 = match c2 {
            Some(c) => local_to_utc(c),
            None => None,
        };
        let r = pick_delay(now, l1, l2);
        proof {
            assert(within_day(l1, wall_time(now as int, *rule, true)));
            assert(within_day(l2, wall_time(now as int, *rule, false)));
        }
        r
    } else {
        pick_delay(now, c1, c2)
    }
}

/// The delay that `calc_next_delay` computes from the wall-clock times of a rule in
/// UTC (see its contract).
pub open spec fn wall_delay(now: int, rule: Rule) -> Option<int> {
    pick_delay_of(now, opt_i64(wall_time(now, rule, true)), opt_i64(wall_time(now, rule, false)))
}

/// An hourly rule fires within the hour, at its minute and second; a daily rule
/// within the day, at its time; a weekly rule within the week, at its time on its
/// day of the week.  (For a rule in UTC, `wall_delay` is what `calc_next_delay`
/// returns.)
pub proof fn lemma_wall_delay_range(now: u64, rule: Rule)
    requires
        rule_ok(rule),
        now <= MAX_NOW,
    ensures
        match rule {
            Rule::Hourly(ms) => wall_delay(now as int, rule) matches Some(d) && 0 <= d < 3600 && (now + d) % 3600
                == ms.minute * 60 + ms.second,
            Rule::Daily(r) => wall_delay(now as int, rule) matches Some(d) && 0 <= d < 86400 && (now + d) % 86400
                == r.time.secs,
            Rule::Weekly(r) => wall_delay(now as int, rule) matches Some(d) && 0 <= d < 7 * 86400 && (now + d) % 86400
                == r.time.secs && weekday_of(ce_day((now + d) / 86400)) == r.weekday,
            _ => true,
        },
{
    let n = now as int;
    let k = n / 86400;
    let h = n / 3600;
    vstd::arithmetic::div_mod::lemma_fundamental_div_mod(n, 86400);
    vstd::arithmetic::div_mod::lemma_fundamental_div_mod(n, 3600);
    assert(today_of(n) as int == k + UNIX_EPOCH_CE_DAYS);
    match rule {
        Rule::Hourly(ms) => {
            let o = ms.minute * 60 + ms.second;
            let c1 = n - n % 3600 + o;
            assert(c1 == h * 3600 + o);
            let d = if c1 >= n { c1 - n } else { c1 + 3600 - n };
            let q = if c1 >= n { h } else { h + 1 };
            assert(n + d == q * 3600 + o);
            vstd::arithmetic::div_mod::lemma_fundamental_div_mod_converse(n + d, 3600, q, o);
            assert(wall_delay(n, rule) == Some(d));
        },
        Rule::Daily(r) => {
            let o = r.time.secs as int;
            let c1 = at_time(k + UNIX_EPOCH_CE_DAYS, r.time);
            assert(c1 == k * 86400 + o);
            let d = if c1 >= n { c1 - n } else { c1 + 86400 - n };
            let q = if c1 >= n { k } else { k + 1 };
            assert(n + d == q * 86400 + o);
            vstd::arithmetic::div_mod::lemma_fundamental_div_mod_converse(n + d, 86400, q, o);
            assert(wall_delay(n, rule) == Some(d));
        },
        Rule::Weekly(r) => {
            let o = r.time.secs as int;
            let wd = weekday_of(k + UNIX_EPOCH_CE_DAYS);
            assert(wd == (k + 3) % 7);
            vstd::arithmetic::div_mod::lemma_fundamental_div_mod(k + 3, 7);
            let day1 = k + r.weekday - wd;
            let c1 = at_time(day1 + UNIX_EPOCH_CE_DAYS, r.time);
            assert(c1 == day1 * 86400 + o);
            let day = if c1 >= n { day1 } else { day1 + 7 };
            let d = day * 86400 + o - n;
            assert(d >= 0 && d < 7 * 86400);
            assert(n + d == day * 86400 + o);
            vstd::arithmetic::div_mod::lemma_fundamental_div_mod_converse(n + d, 86400, day, o);
            let w = if c1 >= n { (k + 3) / 7 } else { (k + 3) / 7 + 1 };
            assert(day + 3 == w * 7 + r.weekday);
            vstd::arithmetic::div_mod::lemma_fundamental_div_mod_converse(day + 3, 7, w, r.weekday as int);
            assert(weekday_of(ce_day(day)) == r.weekday);
            assert(wall_delay(n, rule) == Some(d));
        },
        _ => {},
    }
}

/// What happens at a scheduled time.
#[derive(Clone, Copy, PartialEq, Eq, Structural, Debug)]
pub enum ScheduleEvent {
    /// Turn on task `task` by its schedule rule number `rule`.
    Rule { task: usize, rule: usize },
    /// Drop the idle watcher of the process `pid` if it is still idle.
    WatcherExpire(i32),
}

/// Pending scheduled events by time; the events at one time in the order they were
/// added.
pub struct Schedule {
    map: BTreeMap<u64, Vec<ScheduleEvent>>,
}

impl View for Schedule {
    type V = Map<u64, Seq<ScheduleEvent>>;

    closed spec fn view(&self) -> Map<u64, Seq<ScheduleEvent>> {
        self.map@.map_values(|v: Vec<ScheduleEvent>| v@)
    }
}

/// `t` is the earliest time with pending events.
pub open spec fn is_first_time(m: Map<u64, Seq<ScheduleEvent>>, t: u64) -> bool {
    m.contains_key(t) && forall|j: u64| #[trigger] m.contains_key(j) ==> t <= j
}

/// The events at time `t`, none if there are none.
pub open spec fn events_at(m: Map<u64, Seq<ScheduleEvent>>, t: u64) -> Seq<ScheduleEvent> {
    if m.contains_key(t) {
        m[t]
    } else {
        Seq::empty()
    }
}

/// Whether a schedule entry is at time `t`.
pub open spec fn at_instant(t: u64) -> spec_fn((u64, ScheduleEvent)) -> bool {
    |e: (u64, ScheduleEvent)| e.0 == t
}

/// Whether an event stays when the events of task `task` are dropped.
pub open spec fn keeps(task: usize) -> spec_fn(ScheduleEvent) -> bool {
    |e: ScheduleEvent| !(e matches ScheduleEvent::Rule { task: t, .. } && t == task)
}

/// The schedule without the events that turn on task `task`; times left with no
/// events go.
pub open spec fn without_task(m: Map<u64, Seq<ScheduleEvent>>, task: usize) -> Map<u64, Seq<ScheduleEvent>> {
    Map::new(|t: u64| m.contains_key(t) && m[t].filter(keeps(task)).len() > 0, |t: u64| m[t].filter(keeps(task)))
}

proof fn lemma_filter_full(s: Seq<ScheduleEvent>, p: spec_fn(ScheduleEvent) -> bool)
    requires
        s.filter(p).len() >= s.len(),
    ensures
        s.filter(p) == s,
    decreases s.len(),
{
    if s.len() > 0 {
        let t = s.drop_last();
        assert(t.push(s.last()) =~= s);
        t.lemma_filter_push(s.last(), p);
        t.lemma_filter_len(p);
        lemma_filter_full(t, p);
    } else {
        s.lemma_filter_len(p);
        assert(s.filter(p) =~= s);
    }
}

proof fn lemma_filter_all(s: Seq<(u64, ScheduleEvent)>, p: spec_fn((u64, ScheduleEvent)) -> bool)
    requires
        forall|i: int| 0 <= i < s.len() ==> p(#[trigger] s[i]),
    ensures
        s.filter(p) == s,
    decreases s.len(),
{
    if s.len() > 0 {
        let t = s.drop_last();
        assert(t.push(s.last()) =~= s);
        t.lemma_filter_push(s.last(), p);
        lemma_filter_all(t, p);
    } else {
        s.lemma_filter_len(p);
        assert(s.filter(p) =~= s);
    }
}

proof fn lemma_filter_none(s: Seq<(u64, ScheduleEvent)>, p: spec_fn((u64, ScheduleEvent)) -> bool)
    requires
        forall|i: int| 0 <= i < s.len() ==> !p(#[trigger] s[i]),
    ensures
        s.filter(p) == Seq::<(u64, ScheduleEvent)>::empty(),
    decreases s.len(),
{
    if s.len() > 0 {
        let t = s.drop_last();
        assert(t.push(s.last()) =~= s);
        t.lemma_filter_push(s.last(), p);
        lemma_filter_none(t, p);
    } else {
        s.lemma_filter_len(p);
        assert(s.filter(p) =~= Seq::<(u64, ScheduleEvent)>::empty());
    }
}

/// A `BTreeMap` hands out its entries by ascending key.
proof fn lemma_keys_ascending(s: Seq<(&u64, &Vec<ScheduleEvent>)>)
    requires
        vstd::std_specs::btree::increasing_seq(s.map_values(|kv: (&u64, &Vec<ScheduleEvent>)| *kv.0)),
    ensures
        forall|i: int, j: int| 0 <= i < j < s.len() ==> *s[i].0 < *s[j].0,
{
    broadcast use vstd::laws_cmp::group_laws_cmp;
    let ks = s.map_values(|kv: (&u64, &Vec<ScheduleEvent>)| *kv.0);
    assert forall|i: int, j: int| 0 <= i < j < s.len() implies *s[i].0 < *s[j].0 by {
        assert(vstd::laws_cmp::obeys_cmp::<u64>());
        vstd::std_specs::btree::axiom_increasing_seq_meaning(ks);
        assert(vstd::std_specs::cmp::OrdSpec::cmp_spec(&ks[i], &ks[j]) is Less);
        assert(ks[i] == *s[i].0);
        assert(ks[j] == *s[j].0);
    }
}

impl Schedule {
    /// No time is kept without events.
    pub closed spec fn wf(&self) -> bool {
        forall|t: u64| #[trigger] self.map@.contains_key(t) ==> self.map@[t]@.len() > 0
    }

    pub fn new() -> (r: Self)
        ensures
            r.wf(),
            r@ == Map::<u64, Seq<ScheduleEvent>>::empty(),
    {
        let r = Schedule { map: BTreeMap::new() };
        proof {
            assert(r@ =~= Map::<u64, Seq<ScheduleEvent>>::empty());
        }
        r
    }

    /// Add an event at time `at`, after those already there.
    pub fn insert(&mut self, at: u64, ev: ScheduleEvent)
        requires
            old(self).wf(),
        ensures
            final(self).wf(),
            final(self)@ == old(self)@.insert(at, events_at(old(self)@, at).push(ev)),
    {
        broadcast use vstd::std_specs::btree::group_btree_axioms;
        let ghost m0 = self.map@;
        let v = match self.map.remove(&at) {
            Some(mut v) => {
                v.push(ev);
                v
            },
            None => {
                let mut v = Vec::new();
                v.push(ev);
                v
            },
        };
        let ghost vv = v@;
        self.map.insert(at, v);
        proof {
            assert(vv == events_at(old(self)@, at).push(ev));
            assert(self.map@ == m0.insert(at, self.map@[at]));
            assert(self@ =~= old(self)@.insert(at, events_at(old(self)@, at).push(ev)));
        }
    }

    /// Take the next event: the last added of those at the earliest time.
    pub fn pop_first(&mut self) -> (r: Option<(u64, ScheduleEvent)>)
        requires
            old(self).wf(),
        ensures
            final(self).wf(),
            old(self)@ == Map::<u64, Seq<ScheduleEvent>>::empty() ==> r is None && final(self)@ == old(self)@,
            old(self)@ != Map::<u64, Seq<ScheduleEvent>>::empty() ==> (r matches Some(p) && {
                let t = p.0;
                &&& is_first_time(old(self)@, t)
                &&& p.1 == old(self)@[t].last()
                &&& final(self)@ == if old(self)@[t].len() == 1 {
                    old(self)@.remove(t)
                } else {
                    old(self)@.insert(t, old(self)@[t].drop_last())
                }
            }),
    {
        broadcast use vstd::std_specs::btree::group_btree_axioms;
        let mut best: Option<u64> = None;
        for k in it: self.map.keys()
            invariant
                best matches Some(b) ==> self.map@.contains_key(b),
                best matches Some(b) ==> forall|i: int| 0 <= i < it.index() ==> b <= *it.seq()[i],
                best is None ==> it.index() == 0,
        {
            match best {
                Some(b) => {
                    if *k < b {
                        best = Some(*k);
                    }
                },
                None => {
                    best = Some(*k);
                },
            }
        }
        let t = match best {
            None => {
                proof {
                    assert(self.map@.dom().len() == 0);
                    assert(self@ =~= Map::<u64, Seq<ScheduleEvent>>::empty()) by {
                        assert forall|j: u64| !self.map@.contains_key(j) by {
                            if self.map@.contains_key(j) {
                                assert(self.map@.dom().contains(j));
                            }
                        }
                    }
                }
                return None;
            },
            Some(t) => t,
        };
        assert(forall|j: u64| self.map@.contains_key(j) ==> t <= j);
        let ghost m0 = self.map@;
        let mut v = match self.map.remove(&t) {
            Some(v) => v,
            None => {
                proof {
                    assert(false);
                }
                return None;
            },
        };
        let ghost v0 = v@;
        let e = match v.pop() {
            Some(e) => e,
            None => {
                proof {
                    assert(false);
                }
                return None;
            },
        };
        if v.len() > 0 {
            self.map.insert(t, v);
        }
        proof {
            assert(old(self)@.contains_key(t));
            assert(old(self)@ != Map::<u64, Seq<ScheduleEvent>>::empty());
            assert(v0 == old(self)@[t]);
            assert forall|j: u64| #[trigger] old(self)@.contains_key(j) implies t <= j by {
                assert(m0.contains_key(j));
            }
            if v0.len() == 1 {
                assert(self@ =~= old(self)@.remove(t));
            } else {
                assert(self@ =~= old(self)@.insert(t, old(self)@[t].drop_last()));
            }
        }
        Some((t, e))
    }

    /// Drop the events that turn on task `task`; returns whether any was dropped.
    pub fn remove_task(&mut self, task: usize) -> (r: bool)
        requires
            old(self).wf(),
        ensures
            final(self).wf(),
            final(self)@ == without_task(old(self)@, task),
            r == (final(self)@ != old(self)@),
    {
        broadcast use vstd::std_specs::btree::group_btree_axioms;
        let ghost keep = keeps(task);
        let mut out: BTreeMap<u64, Vec<ScheduleEvent>> = BTreeMap::new();
        let mut dropped = false;
        for kv in it: self.map.iter()
            invariant
                keep == keeps(task),
                self.wf(),
                forall|t: u64| #[trigger] out@.contains_key(t) ==> self.map@.contains_key(t)
                    && out@[t]@ == self.map@[t]@.filter(keep) && out@[t]@.len() > 0,
                forall|i: int| 0 <= i < it.index() ==> {
                    let t = *(#[trigger] it.seq()[i]).0;
                    self.map@[t]@.filter(keep).len() > 0 ==> out@.contains_key(t)
                },
                dropped ==> exists|t: u64| #[trigger] self.map@.contains_key(t)
                    && self.map@[t]@.filter(keep).len() < self.map@[t]@.len(),
                !dropped ==> forall|i: int| 0 <= i < it.index() ==> {
                    let t = *(#[trigger] it.seq()[i]).0;
                    self.map@[t]@.filter(keep).len() >= self.map@[t]@.len()
                },
        {
            let (k, v) = kv;
            let mut f: Vec<ScheduleEvent> = Vec::new();
            let mut j: usize = 0;
            while j < v.len()
                invariant
                    keep == keeps(task),
                    j <= v@.len(),
                    f@ == v@.subrange(0, j as int).filter(keep),
                decreases v@.len() - j,
            {
                let e = v[j];
                proof {
                    assert(v@.subrange(0, j + 1) =~= v@.subrange(0, j as int).push(e));
                    v@.subrange(0, j as int).lemma_filter_push(e, keep);
                }
                let stays = match e {
                    ScheduleEvent::Rule { task: t, .. } => t != task,
                    _ => true,
                };
                if stays {
                    f.push(e);
                }
                j = j + 1;
            }
            proof {
                assert(v@.subrange(0, v@.len() as int) =~= v@);
                v@.lemma_filter_len(keep);
            }
            if f.len() < v.len() {
                dropped = true;
            }
            if f.len() > 0 {
                out.insert(*k, f);
            }
        }
        let ghost before = self@;
        let ghost m0 = self.map@;
        proof {
            assert(forall|t: u64| #[trigger] m0.contains_key(t) && m0[t]@.filter(keep).len() > 0 ==> out@.contains_key(t));
            if !dropped {
                assert(forall|t: u64| #[trigger] m0.contains_key(t) ==> m0[t]@.filter(keep).len() >= m0[t]@.len());
            }
        }
        self.map = out;
        proof {
            assert(self@ =~= without_task(before, task));
            if dropped {
                let t = choose|t: u64| #[trigger] m0.contains_key(t) && m0[t]@.filter(keep).len() < m0[t]@.len();
                if self@ == before {
                    assert(before.contains_key(t));
                    assert(self@[t] == before[t]);
                }
            } else {
                assert forall|t: u64| #[trigger] before.contains_key(t) implies before[t].filter(keep) == before[t] by {
                    assert(m0.contains_key(t));
                    lemma_filter_full(before[t], keep);
                }
                assert(self@ =~= before);
            }
        }
        dropped
    }

    /// The pending events in ascending time; events at one time in the order they were
    /// added.
    pub fn ascending(&self) -> (r: Vec<(u64, ScheduleEvent)>)
        requires
            self.wf(),
        ensures
            forall|a: int, b: int| 0 <= a < b < r@.len() ==> r@[a].0 <= r@[b].0,
            forall|t: u64| #[trigger] r@.filter(at_instant(t)) == events_at(self@, t).map_values(|e: ScheduleEvent| (t, e)),
    {
        broadcast use vstd::std_specs::btree::group_btree_axioms;
        let mut r: Vec<(u64, ScheduleEvent)> = Vec::new();
        let iter = self.map.iter();
        let ghost entries = iter.remaining();
        let ghost mut done: int = 0;
        proof {
            lemma_keys_ascending(iter.remaining());
        }
        for kv in it: iter
            invariant
                it.seq() == entries,
                done == it.index(),
                forall|i: int, j: int| 0 <= i < j < it.seq().len() ==> *it.seq()[i].0 < *it.seq()[j].0,
                forall|i: int| 0 <= i < it.seq().len() ==> self.map@.contains_key(*#[trigger] it.seq()[i].0)
                    && self.map@[*it.seq()[i].0] == *it.seq()[i].1,
                forall|a: int, b: int| 0 <= a < b < r@.len() ==> r@[a].0 <= r@[b].0,
                it.index() < it.seq().len() ==> forall|a: int| 0 <= a < r@.len() ==> r@[a].0 < *it.seq()[it.index()].0,
                forall|t: u64| #[trigger] r@.filter(at_instant(t)) == if exists|i: int| 0 <= i < it.index() && *it.seq()[i].0 == t {
                    self@[t].map_values(|e: ScheduleEvent| (t, e))
                } else {
                    Seq::empty()
                },
        {
            let (k, v) = kv;
            let ghost r0 = r@;
            let ghost n = it.index();
            assert(*k == *it.seq()[n].0 && *v == *it.seq()[n].1);
            let mut j: usize = 0;
            while j < v.len()
                invariant
                    j <= v@.len(),
                    r@ == r0 + v@.subrange(0, j as int).map_values(|e: ScheduleEvent| (*k, e)),
                decreases v@.len() - j,
            {
                r.push((*k, v[j]));
                proof {
                    assert(v@.subrange(0, j + 1).map_values(|e: ScheduleEvent| (*k, e)) =~= v@.subrange(0, j as int).map_values(
                        |e: ScheduleEvent| (*k, e),
                    ).push((*k, v@[j as int])));
                }
                j = j + 1;
            }
            proof {
                let added = v@.map_values(|e: ScheduleEvent| (*k, e));
                assert(v@.subrange(0, v@.len() as int) =~= v@);
                assert(r@ == r0 + added);
                assert(self@[*k] == v@);
                assert forall|t: u64| #[trigger] r@.filter(at_instant(t)) == if exists|i: int|
                    0 <= i < n + 1 && *it.seq()[i].0 == t {
                    self@[t].map_values(|e: ScheduleEvent| (t, e))
                } else {
                    Seq::empty()
                } by {
                    Seq::filter_distributes_over_add(r0, added, at_instant(t));
                    if t == *k {
                        lemma_filter_all(added, at_instant(t));
                        assert(!exists|i: int| 0 <= i < n && *it.seq()[i].0 == t);
                        assert(r0.filter(at_instant(t)) =~= Seq::<(u64, ScheduleEvent)>::empty());
                        assert(r0.filter(at_instant(t)) + added =~= added);
                        assert(*it.seq()[n].0 == t);
                    } else {
                        lemma_filter_none(added, at_instant(t));
                        assert(r0.filter(at_instant(t)) + Seq::<(u64, ScheduleEvent)>::empty() =~= r0.filter(at_instant(t)));
                        assert((exists|i: int| 0 <= i < n + 1 && *it.seq()[i].0 == t) == (exists|i: int|
                            0 <= i < n && *it.seq()[i].0 == t));
                    }
                }
                assert forall|a: int, b: int| 0 <= a < b < r@.len() implies r@[a].0 <= r@[b].0 by {
                    if b >= r0.len() {
                        assert(r@[b] == added[b - r0.len()]);
                        if a >= r0.len() {
                            assert(r@[a] == added[a - r0.len()]);
                        } else {
                            assert(r@[a] == r0[a]);
                        }
                    } else {
                        assert(r@[a] == r0[a] && r@[b] == r0[b]);
                    }
                }
                if n + 1 < it.seq().len() {
                    assert forall|a: int| 0 <= a < r@.len() implies r@[a].0 < *it.seq()[n + 1].0 by {
                        if a >= r0.len() {
                            assert(r@[a] == added[a - r0.len()]);
                        } else {
                            assert(r@[a] == r0[a]);
                        }
                    }
                }
                done = done + 1;
            }
        }
        proof {
            assert forall|t: u64| #[trigger] r@.filter(at_instant(t)) == events_at(self@, t).map_values(
                |e: ScheduleEvent| (t, e),
            ) by {
                if self.map@.contains_key(t) {
                    assert(exists|i: int| 0 <= i < entries.len() && *entries[i].0 == t);
                } else {
                    assert(!exists|i: int| 0 <= i < entries.len() && *entries[i].0 == t);
                    assert(Seq::<ScheduleEvent>::empty().map_values(|e: ScheduleEvent| (t, e)) =~= Seq::empty());
                }
            }
        }
        r
    }
}

} // verus!
