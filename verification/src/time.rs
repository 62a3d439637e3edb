//! Points in time, the spans between them and how both are written.

use crate::text::{
    decimal, decimal_text, digit, integer, is_digit, law_decimal_read_back, law_integer_is_of_digits,
    law_trimmed_stays, law_white_space_is_trimmed, parse_integer, trim, trimmed, white_space,
};
use chrono::{DateTime, Duration, FixedOffset};
use vstd::prelude::*;

verus! {

/// A point in time as the contracts see it: whole seconds since the epoch, the nanoseconds beyond
/// them, and how many seconds local time is ahead of UTC. In a leap second the nanoseconds count
/// on from one billion.
pub struct Moment {
    pub secs: int,
    pub nanos: int,
    pub offset: int,
}

/// The first second that a point in time can stand for.
pub const MIN_SECS: i64 = -8_334_601_228_800;

/// The last second that a point in time can stand for.
pub const MAX_SECS: i64 = 8_210_266_876_799;

impl Moment {
    /// Whether a calendar date and a time of day stand for this moment.
    pub open spec fn in_range(self) -> bool {
        &&& MIN_SECS <= self.secs <= MAX_SECS
        &&& 0 <= self.nanos < 2_000_000_000
        &&& self.nanos >= 1_000_000_000 ==> self.secs % 60 == 59
        &&& -86_400 < self.offset < 86_400
    }

    /// A number that orders moments: the later one has the greater number.
    pub open spec fn rank(self) -> int {
        self.secs * 2_000_000_000 + self.nanos
    }
}

/// How many seconds local time is ahead of UTC: less than a day, in either direction.
#[derive(Debug, Clone, Copy, PartialEq, Eq)]
pub struct UtcOffset {
    secs: i32,
}

impl View for UtcOffset {
    type V = int;

    closed spec fn view(&self) -> int {
        self.secs as int
    }
}

impl UtcOffset {
    #[verifier::type_invariant]
    spec fn valid(self) -> bool {
        -86_400 < self.secs < 86_400
    }

    /// The offset of so many seconds, where that is less than a day.
    pub fn new(secs: i32) -> (r: Option<UtcOffset>)
        ensures
            match r {
                Some(o) => -86_400 < secs < 86_400 && o@ == secs,
                None => !(-86_400 < secs < 86_400),
            },
    {
        if secs <= -86_400 || secs >= 86_400 {
            return None;
        }
        Some(UtcOffset { secs })
    }

    /// The seconds.
    pub fn secs(&self) -> (r: i32)
        ensures
            r == self@,
            -86_400 < r < 86_400,
    {
        proof {
            use_type_invariant(self);
        }
        self.secs
    }
}

/// A point in time with its offset from UTC.
#[derive(Debug, Clone, Copy, PartialEq, Eq)]
pub struct Timestamp {
    secs: i64,
    nanos: u32,
    offset: i32,
}

impl View for Timestamp {
    type V = Moment;

    closed spec fn view(&self) -> Moment {
        Moment { secs: self.secs as int, nanos: self.nanos as int, offset: self.offset as int }
    }
}

impl Timestamp {
    #[verifier::type_invariant]
    spec fn valid(self) -> bool {
        self@.in_range()
    }

    /// The point in time of the given parts, where they are in range.
    pub fn new(secs: i64, nanos: u32, offset: i32) -> (r: Option<Timestamp>)
        ensures
            ({
                let m = Moment { secs: secs as int, nanos: nanos as int, offset: offset as int };
                match r {
                    Some(t) => m.in_range() && t@ == m,
                    None => !m.in_range(),
                }
            }),
    {
        if secs < MIN_SECS || secs > MAX_SECS || nanos >= 2_000_000_000 || offset <= -86_400
            || offset >= 86_400 {
            return None;
        }
        if nanos >= 1_000_000_000 && (secs - MIN_SECS) % 60 != 59 {
            return None;
        }
        Some(Timestamp { secs, nanos, offset })
    }

    /// The whole seconds since the epoch.
    pub fn secs(&self) -> (r: i64)
        ensures
            r == self@.secs,
    {
        self.secs
    }

    /// The nanoseconds beyond the whole seconds.
    pub fn nanos(&self) -> (r: u32)
        ensures
            r == self@.nanos,
    {
        self.nanos
    }

    /// The offset from UTC in seconds.
    pub fn offset(&self) -> (r: i32)
        ensures
            r == self@.offset,
    {
        self.offset
    }

    /// The same point in time at another offset from UTC.
    pub fn at_offset(&self, offset: &UtcOffset) -> (r: Timestamp)
        ensures
            r@ == (Moment { offset: offset@, ..self@ }),
    {
        proof {
            use_type_invariant(self);
        }
        let secs: i32 = offset.secs();
        Timestamp { secs: self.secs, nanos: self.nanos, offset: secs }
    }

    /// A number that orders points in time: the later one has the greater number.
    pub fn rank(&self) -> (r: i128)
        ensures
            r == self@.rank(),
            self@.in_range(),
    {
        proof {
            use_type_invariant(self);
        }
        self.secs as i128 * 2_000_000_000 + self.nanos as i128
    }
}

/// The whole seconds from `then` to `now`, cut towards zero. A leap second between the two is
/// counted where the times of day show it: where the leap second is the one with the earlier time
/// of day.
pub open spec fn elapsed_secs(now: Moment, then: Moment) -> int {
    let leap: int = if now.secs % 86_400 > then.secs % 86_400 && then.nanos >= 1_000_000_000 {
        1
    } else if now.secs % 86_400 < then.secs % 86_400 && now.nanos >= 1_000_000_000 {
        -1
    } else {
        0
    };
    let nanos = (now.secs - then.secs + leap) * 1_000_000_000 + now.nanos - then.nanos;
    if nanos >= 0 {
        nanos / 1_000_000_000
    } else {
        -(-nanos / 1_000_000_000)
    }
}

/// Calls `DateTime::signed_duration_since` and `TimeDelta::num_seconds` of chrono on the two
/// points in time: the difference in nanoseconds, with chrono's rule for leap seconds, cut towards
/// zero to whole seconds.
#[verifier::external_body]
fn chrono_elapsed(now: &Timestamp, then: &Timestamp) -> (r: i64)
    requires
        now@.in_range(),
        then@.in_range(),
    ensures
        r == elapsed_secs(now@, then@),
{
    let later = DateTime::from_timestamp(now.secs, now.nanos).unwrap();
    let earlier = DateTime::from_timestamp(then.secs, then.nanos).unwrap();
    later.signed_duration_since(earlier).num_seconds()
}

/// The whole seconds from `then` to `now`.
pub fn seconds_since(now: &Timestamp, then: &Timestamp) -> (r: i64)
    ensures
        r == elapsed_secs(now@, then@),
{
    proof {
        use_type_invariant(now);
        use_type_invariant(then);
    }
    chrono_elapsed(now, then)
}

/// What came first is not in the future: the seconds from it to the later moment are not negative.
pub proof fn law_earlier_is_in_the_past(now: Moment, then: Moment)
    requires
        now.in_range(),
        then.in_range(),
        now.rank() >= then.rank(),
    ensures
        elapsed_secs(now, then) >= 0,
{
    let a = now.secs % 86_400;
    let b = then.secs % 86_400;
    let later = now.secs - then.secs;
    assert(later >= 0);
    if later == 0 {
        assert(a == b);
    } else if a < b && now.nanos >= 1_000_000_000 {
        // a leap second does not begin a day
        assert(a % 60 == 59);
        assert(later >= 2);
    }
}

/// Outside leap seconds, the more recent of two moments is no longer ago.
pub proof fn law_more_recent_is_no_longer_ago(now: Moment, a: Moment, b: Moment)
    requires
        0 <= now.nanos < 1_000_000_000,
        0 <= a.nanos < 1_000_000_000,
        0 <= b.nanos < 1_000_000_000,
        a.rank() >= b.rank(),
    ensures
        elapsed_secs(now, a) <= elapsed_secs(now, b),
{
}

/// A number below one hundred in two decimal digits.
pub open spec fn two_digits(n: int) -> Seq<char> {
    seq![digit(n / 10), digit(n % 10)]
}

/// The local time of day of a moment, as hours and minutes.
pub open spec fn clock(m: Moment) -> Seq<char> {
    let day_secs = (m.secs + m.offset) % 86_400;
    two_digits(day_secs / 3600) + seq![':'] + two_digits(day_secs / 60 % 60)
}

/// Calls `DateTime::format` of chrono with `%H:%M`: the hours and the minutes of the local time of
/// day, two digits each.
#[verifier::external_body]
fn chrono_clock(t: &Timestamp) -> (r: String)
    requires
        t@.in_range(),
    ensures
        r@ == clock(t@),
{
    let zone = FixedOffset::east_opt(t.offset).unwrap();
    let utc = DateTime::from_timestamp(t.secs, t.nanos).unwrap();
    utc.with_timezone(&zone).format("%H:%M").to_string()
}

/// The local time of day, as hours and minutes.
pub fn clock_text(t: &Timestamp) -> (r: String)
    ensures
        r@ == clock(t@),
{
    proof {
        use_type_invariant(t);
    }
    chrono_clock(t)
}

/// What `DateTime::to_rfc3339` of chrono writes for a point in time.
pub uninterp spec fn rfc3339_text(secs: int, nanos: int, offset: int) -> Seq<char>;

/// Calls `DateTime::to_rfc3339` of chrono, whose result is a function of the point in time and its
/// offset alone.
#[verifier::external_body]
fn chrono_to_rfc3339(t: &Timestamp) -> (r: String)
    requires
        t@.in_range(),
    ensures
        r@ == rfc3339_text(t@.secs, t@.nanos, t@.offset),
{
    let zone = FixedOffset::east_opt(t.offset).unwrap();
    let utc = DateTime::from_timestamp(t.secs, t.nanos).unwrap();
    utc.with_timezone(&zone).to_rfc3339()
}

/// A point in time as RFC 3339 writes it.
pub fn to_rfc3339(t: &Timestamp) -> (r: String)
    ensures
        r@ == rfc3339_text(t@.secs, t@.nanos, t@.offset),
{
    proof {
        use_type_invariant(t);
    }
    chrono_to_rfc3339(t)
}

/// What `DateTime::parse_from_rfc3339` of chrono reads in a text.
pub uninterp spec fn rfc3339_moment(s: Seq<char>) -> Option<Moment>;

/// Calls `DateTime::parse_from_rfc3339` of chrono and takes the result apart into seconds,
/// nanoseconds and offset. The result is a function of the text alone; what comes out is in range.
#[verifier::external_body]
fn chrono_parse_rfc3339(s: &str) -> (r: Option<(i64, u32, i32)>)
    ensures
        match r {
            Some(p) => {
                let m = Moment { secs: p.0 as int, nanos: p.1 as int, offset: p.2 as int };
                rfc3339_moment(s@) == Some(m) && m.in_range()
            },
            None => rfc3339_moment(s@) is None,
        },
{
    match DateTime::parse_from_rfc3339(s) {
        Ok(t) => Some((t.timestamp(), t.timestamp_subsec_nanos(), t.offset().local_minus_utc())),
        Err(_) => None,
    }
}

/// The moment of a point in time that may be missing.
pub open spec fn moment(t: Option<Timestamp>) -> Option<Moment> {
    match t {
        Some(t) => Some(t@),
        None => None,
    }
}

/// A moment in local time: at the offset that local time has then, or at its own where that is not
/// given.
pub open spec fn local_moment(t: Option<Timestamp>, offset: Option<UtcOffset>) -> Option<Moment> {
    match (t, offset) {
        (Some(t), Some(o)) => Some(Moment { offset: o@, ..t@ }),
        (Some(t), None) => Some(t@),
        _ => None,
    }
}

/// A point in time in local time.
pub fn in_local_time(t: &Option<Timestamp>, offset: &Option<UtcOffset>) -> (r: Option<Timestamp>)
    ensures
        moment(r) == local_moment(*t, *offset),
{
    match (t, offset) {
        (Some(t), Some(o)) => Some(t.at_offset(o)),
        (Some(t), None) => Some(*t),
        _ => None,
    }
}

/// The point in time that a text gives in the form of RFC 3339.
pub fn parse_rfc3339(s: &str) -> (r: Option<Timestamp>)
    ensures
        moment(r) == rfc3339_moment(s@),
{
    match chrono_parse_rfc3339(s) {
        Some(p) => Timestamp::new(p.0, p.1, p.2),
        None => None,
    }
}

/// The greatest span in seconds, in either direction.
pub const SPAN_LIMIT: i64 = 9_223_372_036_854_775;

/// Whether a span of so many seconds can be held.
pub open spec fn span_fits(secs: int) -> bool {
    -SPAN_LIMIT <= secs <= SPAN_LIMIT
}

/// Calls `Duration::seconds` of chrono, which panics beyond the greatest span, and reads the span
/// back in seconds.
#[verifier::external_body]
fn chrono_seconds(n: i64) -> (r: i64)
    requires
        span_fits(n as int),
    ensures
        r == n,
{
    Duration::seconds(n).num_seconds()
}

/// Calls `Duration::minutes` of chrono, which panics beyond the greatest span, and reads the span
/// back in seconds.
#[verifier::external_body]
fn chrono_minutes(n: i64) -> (r: i64)
    requires
        span_fits(n * 60),
    ensures
        r == n * 60,
{
    Duration::minutes(n).num_seconds()
}

/// Calls `Duration::hours` of chrono, which panics beyond the greatest span, and reads the span
/// back in seconds.
#[verifier::external_body]
fn chrono_hours(n: i64) -> (r: i64)
    requires
        span_fits(n * 3600),
    ensures
        r == n * 3600,
{
    Duration::hours(n).num_seconds()
}

/// Calls `Duration::days` of chrono, which panics beyond the greatest span, and reads the span back
/// in seconds.
#[verifier::external_body]
fn chrono_days(n: i64) -> (r: i64)
    requires
        span_fits(n * 86_400),
    ensures
        r == n * 86_400,
{
    Duration::days(n).num_seconds()
}

/// The seconds of a unit of time: seconds, minutes, hours or days.
pub open spec fn unit_secs(unit: char) -> Option<int> {
    if unit == 's' {
        Some(1)
    } else if unit == 'm' {
        Some(60)
    } else if unit == 'h' {
        Some(3600)
    } else if unit == 'd' {
        Some(86_400)
    } else {
        None
    }
}

/// The span in seconds that a text such as `30m`, `2h` or `7d` gives: an integer and behind it a
/// unit, with white space around them or not.
pub open spec fn duration(s: Seq<char>) -> Option<int> {
    let t = trim(s);
    if t.len() == 0 {
        None
    } else {
        match (integer(t.drop_last()), unit_secs(t.last())) {
            (Some(n), Some(unit)) => Some(n * unit),
            _ => None,
        }
    }
}

/// Whether a text can be read as a span at all: it ends in an ASCII character, and the span that it
/// gives, if any, can be held.
pub open spec fn duration_readable(s: Seq<char>) -> bool {
    &&& trim(s).len() > 0 ==> trim(s).last() <= '\u{7f}'
    &&& duration(s) matches Some(secs) ==> span_fits(secs)
}

/// Whether `parse_duration` can be asked about a text.
pub fn can_read_duration(s: &str) -> (r: bool)
    ensures
        r == duration_readable(s@),
{
    let t = trimmed(s);
    if t.len() == 0 {
        return true;
    }
    let last: usize = t.len() - 1;
    let unit: char = t[last];
    assert(t@.take(last as int) =~= t@.drop_last());
    let unit_len: i128 = if unit == 's' {
        1
    } else if unit == 'm' {
        60
    } else if unit == 'h' {
        3600
    } else if unit == 'd' {
        86_400
    } else {
        return unit <= '\u{7f}';
    };
    match parse_integer(&t, last) {
        Some(n) => {
            assert(-0x8000_0000_0000_0000i128 * 86_400 <= n * unit_len <= 0x8000_0000_0000_0000i128
                * 86_400) by (nonlinear_arith)
                requires
                    -0x8000_0000_0000_0000 <= n <= 0x7fff_ffff_ffff_ffff,
                    1 <= unit_len <= 86_400,
            ;
            let secs: i128 = n as i128 * unit_len;
            -(SPAN_LIMIT as i128) <= secs && secs <= SPAN_LIMIT as i128
        },
        None => true,
    }
}

/// The span in seconds that a text such as `30m`, `2h` or `7d` gives.
pub fn parse_duration(s: &str) -> (r: Option<i64>)
    requires
        duration_readable(s@),
    ensures
        match r {
            Some(secs) => duration(s@) == Some(secs as int),
            None => duration(s@) is None,
        },
{
    let t = trimmed(s);
    if t.len() == 0 {
        return None;
    }
    let last: usize = t.len() - 1;
    let unit: char = t[last];
    assert(t@.take(last as int) =~= t@.drop_last());
    match parse_integer(&t, last) {
        Some(n) => if unit == 's' {
            Some(chrono_seconds(n))
        } else if unit == 'm' {
            Some(chrono_minutes(n))
        } else if unit == 'h' {
            Some(chrono_hours(n))
        } else if unit == 'd' {
            Some(chrono_days(n))
        } else {
            None
        },
        None => None,
    }
}

/// How long ago something was: in seconds, minutes, hours and minutes, or days and hours.
pub open spec fn relative(secs: int) -> Seq<char> {
    let mins = secs / 60;
    let hours = secs / 3600;
    let days = secs / 86_400;
    if secs < 0 {
        "just now"@
    } else if secs < 60 {
        decimal(secs as nat) + "s ago"@
    } else if mins < 60 {
        decimal(mins as nat) + "m ago"@
    } else if hours < 24 {
        if mins % 60 > 0 {
            decimal(hours as nat) + "h "@ + decimal((mins % 60) as nat) + "m ago"@
        } else {
            decimal(hours as nat) + "h ago"@
        }
    } else if hours % 24 > 0 {
        decimal(days as nat) + "d "@ + decimal((hours % 24) as nat) + "h ago"@
    } else {
        decimal(days as nat) + "d ago"@
    }
}

/// How long ago something was, from the seconds since.
pub fn format_relative(secs: i64) -> (r: String)
    ensures
        r@ == relative(secs as int),
{
    if secs < 0 {
        return "just now".to_string();
    }
    let secs: u64 = secs as u64;
    if secs < 60 {
        return decimal_text(secs).concat("s ago");
    }
    let mins: u64 = secs / 60;
    if mins < 60 {
        return decimal_text(mins).concat("m ago");
    }
    let hours: u64 = mins / 60;
    if hours < 24 {
        let rem_mins: u64 = mins % 60;
        if rem_mins > 0 {
            return decimal_text(hours).concat("h ").concat(decimal_text(rem_mins).as_str()).concat(
                "m ago",
            );
        }
        return decimal_text(hours).concat("h ago");
    }
    let days: u64 = hours / 24;
    let rem_hours: u64 = hours % 24;
    if rem_hours > 0 {
        decimal_text(days).concat("d ").concat(decimal_text(rem_hours).as_str()).concat("h ago")
    } else {
        decimal_text(days).concat("d ago")
    }
}

/// A number written in decimal, with a unit behind it, is read back as so many of that unit.
pub proof fn law_duration_read_back(n: nat, unit: char)
    requires
        n <= i64::MAX,
        unit_secs(unit) is Some,
    ensures
        duration(decimal(n).push(unit)) == Some(n * unit_secs(unit)->0),
{
    let s = decimal(n).push(unit);
    law_decimal_read_back(n);
    assert(is_digit(decimal(n)[0]));
    assert(s[0] == decimal(n)[0]);
    law_trimmed_stays(s);
    assert(s.drop_last() =~= decimal(n));
}

/// The age in seconds that the text of an age stands for.
pub open spec fn shown_age(secs: int) -> int {
    if secs < 60 {
        secs
    } else if secs < 86_400 {
        secs / 60 * 60
    } else {
        secs / 3600 * 3600
    }
}

/// The text of an age never overstates it, and falls short by less than a minute, or by less than an
/// hour from a day on; what is older is not shown as younger.
pub proof fn law_relative_is_monotone(a: int, b: int)
    requires
        0 <= a <= b,
    ensures
        relative(a) == relative(shown_age(a)),
        0 <= shown_age(a) <= a,
        a < shown_age(a) + 3600,
        a < 86_400 ==> a < shown_age(a) + 60,
        shown_age(a) <= shown_age(b),
{
    let m = a / 60;
    let h = a / 3600;
    assert(a >= 60 ==> (m * 60) / 60 == m && (m * 60) / 3600 == h && (m * 60) / 86_400 == a / 86_400);
    assert(a >= 60 ==> (h * 3600) / 3600 == h && (h * 3600) / 86_400 == a / 86_400);
}

/// The number that the text of an age begins with.
spec fn leading_number(secs: int) -> nat {
    if secs < 60 {
        secs as nat
    } else if secs < 3600 {
        (secs / 60) as nat
    } else if secs < 86_400 {
        (secs / 3600) as nat
    } else {
        (secs / 86_400) as nat
    }
}

/// What stands behind the number that the text of an age begins with.
spec fn behind_number(secs: int) -> Seq<char> {
    let mins = secs / 60 % 60;
    let hours = secs / 3600 % 24;
    if secs < 60 {
        "s ago"@
    } else if secs < 3600 {
        "m ago"@
    } else if secs < 86_400 {
        if mins > 0 {
            "h "@ + (decimal(mins as nat) + "m ago"@)
        } else {
            "h ago"@
        }
    } else if hours > 0 {
        "d "@ + (decimal(hours as nat) + "h ago"@)
    } else {
        "d ago"@
    }
}

proof fn lemma_relative_parts(secs: int)
    requires
        0 <= secs,
    ensures
        relative(secs) == decimal(leading_number(secs)) + behind_number(secs),
        behind_number(secs).len() >= 3,
        behind_number(secs)[0] == (if secs < 60 {
            's'
        } else if secs < 3600 {
            'm'
        } else if secs < 86_400 {
            'h'
        } else {
            'd'
        }),
        secs >= 3600 ==> is_digit(behind_number(secs)[2]) == (if secs < 86_400 {
            secs / 60 % 60 > 0
        } else {
            secs / 3600 % 24 > 0
        }),
{
    reveal_strlit("s ago");
    reveal_strlit("m ago");
    reveal_strlit("h ago");
    reveal_strlit("d ago");
    reveal_strlit("h ");
    reveal_strlit("d ");
    law_decimal_read_back((secs / 60 % 60) as nat);
    law_decimal_read_back((secs / 3600 % 24) as nat);
    assert(relative(secs) =~= decimal(leading_number(secs)) + behind_number(secs));
}

/// A number in decimal ends where no digit follows.
proof fn lemma_number_in_front(x: nat, a: Seq<char>, y: nat, b: Seq<char>)
    requires
        decimal(x) + a == decimal(y) + b,
        a.len() > 0 && !is_digit(a[0]),
        b.len() > 0 && !is_digit(b[0]),
    ensures
        x == y,
        a == b,
{
    law_decimal_read_back(x);
    law_decimal_read_back(y);
    let m = decimal(x).len() as int;
    let n = decimal(y).len() as int;
    let all = decimal(x) + a;
    if m < n {
        assert(all[m] == a[0] && all[m] == decimal(y)[m]);
    } else if n < m {
        assert(all[n] == b[0] && all[n] == decimal(x)[n]);
    }
    assert(all.take(m) =~= decimal(x));
    assert(all.take(n) =~= decimal(y));
    assert(all.skip(m) =~= a);
    assert(all.skip(n) =~= b);
}

/// The kind of text that an age has: by its first unit.
spec fn first_unit(secs: int) -> int {
    if secs < 60 {
        1
    } else if secs < 3600 {
        60
    } else if secs < 86_400 {
        3600
    } else {
        86_400
    }
}

/// The second number in the text of an age; zero where there is none.
spec fn second_number(secs: int) -> nat {
    if secs < 3600 {
        0
    } else if secs < 86_400 {
        (secs / 60 % 60) as nat
    } else {
        (secs / 3600 % 24) as nat
    }
}

proof fn lemma_shown_age_parts(secs: int)
    requires
        0 <= secs,
    ensures
        secs < 60 ==> shown_age(secs) == leading_number(secs),
        60 <= secs < 3600 ==> shown_age(secs) == leading_number(secs) * 60,
        3600 <= secs < 86_400 ==> shown_age(secs) == leading_number(secs) * 3600 + second_number(secs)
            * 60,
        86_400 <= secs ==> shown_age(secs) == leading_number(secs) * 86_400 + second_number(secs)
            * 3600,
{
}

proof fn lemma_second_number(a: int, b: int)
    requires
        0 <= a,
        0 <= b,
        behind_number(a) == behind_number(b),
    ensures
        first_unit(a) == first_unit(b),
        second_number(a) == second_number(b),
{
    let p = behind_number(a);
    lemma_relative_parts(a);
    lemma_relative_parts(b);
    assert(first_unit(a) == first_unit(b));
    if a >= 3600 && is_digit(p[2]) {
        let x = second_number(a);
        let y = second_number(b);
        let unit = if a < 86_400 { "m ago"@ } else { "h ago"@ };
        reveal_strlit("m ago");
        reveal_strlit("h ago");
        reveal_strlit("h ");
        reveal_strlit("d ");
        assert(p.skip(2) =~= decimal(x) + unit);
        assert(p.skip(2) =~= decimal(y) + unit);
        lemma_number_in_front(x, unit, y, unit);
    }
}

/// The text of an age begins with a digit, and that of no age with none.
proof fn lemma_relative_begins(secs: int)
    ensures
        relative(secs).len() > 0,
        is_digit(relative(secs)[0]) <==> secs >= 0,
{
    if secs >= 0 {
        lemma_relative_parts(secs);
        law_decimal_read_back(leading_number(secs));
        assert(relative(secs)[0] == decimal(leading_number(secs))[0]);
    } else {
        reveal_strlit("just now");
    }
}

/// The text of an age tells it: ages with one text are shown as one age, and what is not past yet is
/// shown as no age at all.
pub proof fn law_relative_tells_ages_apart(a: int, b: int)
    requires
        relative(a) == relative(b),
    ensures
        a < 0 <==> b < 0,
        a >= 0 ==> shown_age(a) == shown_age(b),
{
    lemma_relative_begins(a);
    lemma_relative_begins(b);
    if a >= 0 {
        lemma_relative_parts(a);
        lemma_relative_parts(b);
        lemma_number_in_front(
            leading_number(a),
            behind_number(a),
            leading_number(b),
            behind_number(b),
        );
        lemma_second_number(a, b);
        lemma_shown_age_parts(a);
        lemma_shown_age_parts(b);
    }
}

/// A moment is in range from the first to the last second of the calendar, at any offset of less than
/// a day; only the last second of a minute can be a leap second.
pub proof fn law_range_of_moments(m: Moment)
    ensures
        m.in_range() <==> -8_334_601_228_800 <= m.secs <= 8_210_266_876_799 && 0 <= m.nanos
            && -86_400 < m.offset < 86_400 && (m.nanos < 1_000_000_000 || (m.nanos < 2_000_000_000
            && m.secs % 60 == 59)),
{
}

/// The later of two moments has the greater rank: it is in a later second, or further on in the same.
pub proof fn law_ranks_follow_time(a: Moment, b: Moment)
    requires
        0 <= a.nanos < 2_000_000_000,
        0 <= b.nanos < 2_000_000_000,
    ensures
        a.rank() < b.rank() <==> a.secs < b.secs || (a.secs == b.secs && a.nanos < b.nanos),
        a.rank() == b.rank() <==> a.secs == b.secs && a.nanos == b.nanos,
{
}

/// Outside leap seconds, the seconds between two moments are the whole seconds of the time between
/// them.
pub proof fn law_whole_seconds_between(now: Moment, then: Moment)
    requires
        0 <= now.nanos < 1_000_000_000,
        0 <= then.nanos < 1_000_000_000,
    ensures
        ({
            let nanos = (now.secs - then.secs) * 1_000_000_000 + (now.nanos - then.nanos);
            let secs = elapsed_secs(now, then);
            &&& nanos >= 0 ==> secs * 1_000_000_000 <= nanos < (secs + 1) * 1_000_000_000
            &&& nanos < 0 ==> (secs - 1) * 1_000_000_000 < nanos <= secs * 1_000_000_000
        }),
{
}

/// The seconds back are the seconds forth, the other way round.
pub proof fn law_seconds_back_and_forth(now: Moment, then: Moment)
    ensures
        elapsed_secs(now, then) == -elapsed_secs(then, now),
{
}

/// The clock shows the minute of the local day that a moment lies in, as hours and minutes in two
/// digits each.
pub proof fn law_clock_shows_minute_of_day(m: Moment)
    ensures
        clock(m).len() == 5,
        clock(m)[2] == ':',
        forall|i: int|
            #![trigger clock(m)[i]]
            0 <= i < 5 && i != 2 ==> '0' <= clock(m)[i] && clock(m)[i] <= '9',
        ({
            let hours = (clock(m)[0] as int - 48) * 10 + (clock(m)[1] as int - 48);
            let minutes = (clock(m)[3] as int - 48) * 10 + (clock(m)[4] as int - 48);
            let into_day = (m.secs + m.offset) % 86_400;
            minutes < 60 && hours * 3600 + minutes * 60 <= into_day < hours * 3600 + minutes * 60 + 60
        }),
{
    let into_day = (m.secs + m.offset) % 86_400;
    let h = into_day / 3600;
    let n = into_day / 60 % 60;
    assert(0 <= h < 24 && 0 <= n < 60);
    assert(clock(m) =~= seq![digit(h / 10), digit(h % 10), ':', digit(n / 10), digit(n % 10)]);
    assert(digit(h / 10) as int == h / 10 + 48 && digit(h % 10) as int == h % 10 + 48);
    assert(digit(n / 10) as int == n / 10 + 48 && digit(n % 10) as int == n % 10 + 48);
}

/// In local time a moment stays the same second and nanosecond; only its offset is that of the place.
pub proof fn law_local_time_is_the_same_time(t: Timestamp, offset: UtcOffset)
    ensures
        local_moment(None, Some(offset)) is None,
        local_moment(None, None) is None,
        local_moment(Some(t), None) == Some(t@),
        local_moment(Some(t), Some(offset)) == Some(
            Moment { secs: t@.secs, nanos: t@.nanos, offset: offset@ },
        ),
{
}

/// A point in time that is there has its moment, and one that is missing has none.
pub proof fn law_moment_of_a_time(t: Timestamp)
    ensures
        moment(Some(t)) == Some(t@),
        moment(None) is None,
{
}

/// An integer and a unit behind it give so many of that unit, with white space around them or not.
pub proof fn law_duration_is_number_and_unit(
    front: Seq<char>,
    number: Seq<char>,
    unit: char,
    back: Seq<char>,
)
    requires
        forall|i: int| 0 <= i < front.len() ==> white_space(#[trigger] front[i]),
        forall|i: int| 0 <= i < back.len() ==> white_space(#[trigger] back[i]),
        integer(number) is Some,
        unit == 's' || unit == 'm' || unit == 'h' || unit == 'd',
    ensures
        duration(front + number.push(unit) + back) == Some(
            integer(number)->0 * (if unit == 's' {
                1int
            } else if unit == 'm' {
                60
            } else if unit == 'h' {
                3600
            } else {
                86_400
            }),
        ),
{
    let s = number.push(unit);
    law_integer_is_of_digits(number);
    assert(s[0] == number[0]);
    law_white_space_is_trimmed(front, s, back);
    assert(s.drop_last() =~= number);
}

/// Nothing else gives a duration.
pub proof fn law_duration_ends_in_unit(s: Seq<char>)
    requires
        duration(s) is Some,
    ensures
        trim(s).len() > 0,
        ({
            let unit = trim(s).last();
            unit == 's' || unit == 'm' || unit == 'h' || unit == 'd'
        }),
        integer(trim(s).drop_last()) is Some,
{
}

/// A text can be read as a span unless it ends in a character beyond ASCII, or gives a span longer
/// than can be held.
pub proof fn law_spans_that_can_be_read(s: Seq<char>)
    ensures
        duration_readable(s) <==> (trim(s).len() == 0 || trim(s).last() <= '\u{7f}') && (duration(s)
            is None || -9_223_372_036_854_775 <= duration(s)->0 <= 9_223_372_036_854_775),
{
}

/// An age of so many days, hours, minutes and seconds is written with its greatest unit, and the next
/// one behind hours and days where there is any.
pub proof fn law_relative_is_written(days: nat, hours: nat, mins: nat, secs: nat)
    requires
        hours < 24,
        mins < 60,
        secs < 60,
    ensures
        ({
            let text = relative((days * 86_400 + hours * 3600 + mins * 60 + secs) as int);
            &&& days == 0 && hours == 0 && mins == 0 ==> text == decimal(secs) + "s ago"@
            &&& days == 0 && hours == 0 && mins > 0 ==> text == decimal(mins) + "m ago"@
            &&& days == 0 && hours > 0 && mins == 0 ==> text == decimal(hours) + "h ago"@
            &&& days == 0 && hours > 0 && mins > 0 ==> text == decimal(hours) + "h "@ + decimal(mins)
                + "m ago"@
            &&& days > 0 && hours == 0 ==> text == decimal(days) + "d ago"@
            &&& days > 0 && hours > 0 ==> text == decimal(days) + "d "@ + decimal(hours) + "h ago"@
        }),
{
    let t = (days * 86_400 + hours * 3600 + mins * 60 + secs) as int;
    lemma_parts_of_age(days as int, hours as int, mins as int, secs as int);
    assert(days == 0 ==> t / 60 % 60 == mins && t / 3600 == hours);
    if days == 0 && hours == 0 && mins == 0 {
        assert(relative(t) == decimal(secs) + "s ago"@);
    } else if days == 0 && hours == 0 {
        assert(relative(t) == decimal(mins) + "m ago"@);
    } else if days == 0 {
        assert(60 <= t / 60 && t / 3600 < 24);
    } else {
        assert(60 <= t / 60 && 24 <= t / 3600);
    }
}

proof fn lemma_parts_of_age(days: int, hours: int, mins: int, secs: int)
    requires
        0 <= days,
        0 <= hours < 24,
        0 <= mins < 60,
        0 <= secs < 60,
    ensures
        ({
            let t = days * 86_400 + hours * 3600 + mins * 60 + secs;
            &&& t / 60 == days * 1440 + hours * 60 + mins
            &&& t / 60 % 60 == mins
            &&& t / 3600 == days * 24 + hours
            &&& t / 3600 % 24 == hours
            &&& t / 86_400 == days
        }),
{
    let t = days * 86_400 + hours * 3600 + mins * 60 + secs;
    assert(t / 60 == days * 1440 + hours * 60 + mins);
    assert((days * 1440 + hours * 60 + mins) % 60 == mins);
    assert(t / 3600 == days * 24 + hours);
    assert((days * 24 + hours) % 24 == hours);
    assert(t / 86_400 == days);
}

/// What is not past yet is written as being just now.
pub proof fn law_future_is_just_now(secs: int)
    requires
        secs < 0,
    ensures
        relative(secs) == "just now"@,
{
}

} // verus!
