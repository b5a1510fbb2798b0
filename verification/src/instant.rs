//! Timestamps in text, and the civil calendar.
use crate::model::DAY;
use crate::numbers;
use crate::numbers::{drop_sign, nan, read_amount, read_natural, LIMIT};
use crate::text;
use crate::text::{cut, find_char, split_chars, trim_chars};
use vstd::prelude::*;

verus! {

/// Nanoseconds in an hour.
pub const HOUR_NS: u64 = 3_600_000_000_000;

/// Nanoseconds in a minute.
pub const MINUTE_NS: u64 = 60_000_000_000;

/// Nanoseconds in a second.
pub const SECOND_NS: u64 = 1_000_000_000;

/// Days from 1970-01-01 to the given day of the proleptic Gregorian calendar.
/// Years run from March, so that a leap day is a year's last.
pub open spec fn days_from_civil(y: int, mo: int, d: int) -> int {
    let march_year = if mo <= 2 {
        y - 1
    } else {
        y
    };
    let era = march_year / 400;
    let yoe = march_year - era * 400;
    let mp = (mo + 9) % 12;
    let doy = (153 * mp + 2) / 5 + d - 1;
    let doe = yoe * 365 + yoe / 4 - yoe / 100 + doy;
    era * 146097 + doe - 719468
}

/// Days from 1970-01-01 to the given day.
pub fn civil_days(y: i32, mo: i32, d: i32) -> (r: i64)
    requires
        y >= 0,
        mo >= 0,
        d >= 0,
    ensures
        r == days_from_civil(y as int, mo as int, d as int),
        -719_900 <= r <= 2_000_000_000_000,
{
    let march_year: i64 = if mo <= 2 {
        y as i64 - 1
    } else {
        y as i64
    };
    let era: i64 = if march_year >= 0 {
        march_year / 400
    } else {
        -1
    };
    let yoe: i64 = march_year - era * 400;
    let mp: i64 = (mo as i64 + 9) % 12;
    let doy: i64 = (153 * mp + 2) / 5 + (d as i64) - 1;
    let doe: i64 = yoe * 365 + yoe / 4 - yoe / 100 + doy;
    era * 146097 + doe - 719468
}

/// The day that a date `year-month-day` names, as days from 1970-01-01. What
/// follows a third dash is not read.
pub open spec fn date_days(date: Seq<char>) -> Option<int> {
    let ps = text::pieces(date, '-');
    if ps.len() < 3 {
        None
    } else {
        match (numbers::natural_of(ps[0]), numbers::natural_of(ps[1]), numbers::natural_of(ps[2])) {
            (Some(y), Some(mo), Some(d)) => Some(days_from_civil(y as int, mo as int, d as int)),
            _ => None,
        }
    }
}

/// The nanoseconds of a seconds field: where it holds a point, what is before the
/// point and what is behind it are numbers of their own, so that an exponent
/// counts for the fraction alone.
pub open spec fn seconds_of(s: Seq<char>) -> Option<nat> {
    let dot = text::first_index(s, '.');
    if dot < s.len() {
        let fraction = seq!['0', '.'] + s.skip(dot + 1);
        match (
            numbers::amount_of(s.take(dot), SECOND_NS as nat),
            numbers::amount_of(fraction, SECOND_NS as nat),
        ) {
            (Some(a), Some(b)) => Some(numbers::at_most(a + b, LIMIT as nat)),
            _ => None,
        }
    } else {
        numbers::amount_of(s, SECOND_NS as nat)
    }
}

/// The nanoseconds from midnight to a clock time `hours:minutes[:seconds]`. What
/// follows a third colon is not read.
pub open spec fn clock_ns(time: Seq<char>) -> Option<nat> {
    let ps = text::pieces(time, ':');
    if ps.len() < 2 {
        None
    } else {
        let sec = if ps.len() > 2 {
            seconds_of(ps[2])
        } else {
            Some(0nat)
        };
        match (
            numbers::amount_of(ps[0], HOUR_NS as nat),
            numbers::amount_of(ps[1], MINUTE_NS as nat),
            sec,
        ) {
            (Some(h), Some(m), Some(s)) => Some(numbers::at_most(h + m + s, LIMIT as nat)),
            _ => None,
        }
    }
}

/// The nanoseconds of a possibly signed field of a zone offset; zero where it
/// is no number.
pub open spec fn offset_field(s: Seq<char>, unit: nat) -> int {
    match numbers::amount_of(numbers::unsigned(s), unit) {
        Some(v) => numbers::signed(numbers::is_negative(s), v),
        None => 0,
    }
}

/// `v`, but no further from zero than [`LIMIT`].
pub open spec fn limited(v: int) -> int {
    if v > LIMIT {
        LIMIT as int
    } else if v < -(LIMIT as int) {
        -(LIMIT as int)
    } else {
        v
    }
}

/// The nanoseconds by which a zone `+hours:minutes` or `-hours:minutes` is ahead
/// of UTC; `None` where one of the two is spelt as what is no number. Without a
/// colon, `-...` is no zone.
pub open spec fn zone_ns(zone: Seq<char>) -> Option<int> {
    if zone.len() > 0 && (zone[0] == '+' || (zone[0] == '-' && text::first_index(zone, ':')
        < zone.len())) {
        let ps = text::pieces(zone.skip(1), ':');
        if numbers::is_nan(ps[0]) || (ps.len() > 1 && numbers::is_nan(ps[1])) {
            None
        } else {
            let size = limited(
                offset_field(ps[0], HOUR_NS as nat) + (if ps.len() > 1 {
                    offset_field(ps[1], MINUTE_NS as nat)
                } else {
                    0
                }),
            );
            Some(
                if zone[0] == '-' {
                    -size
                } else {
                    size
                },
            )
        }
    } else {
        Some(0)
    }
}

/// `s` without a final `Z`.
pub open spec fn without_z(s: Seq<char>) -> Seq<char> {
    if s.len() > 0 && s.last() == 'Z' {
        s.drop_last()
    } else {
        s
    }
}

/// The place of the first sign in `s`, or the length of `s`.
pub open spec fn first_sign(s: Seq<char>) -> int {
    let plus = text::first_index(s, '+');
    let minus = text::first_index(s, '-');
    if plus <= minus {
        plus
    } else {
        minus
    }
}

/// The instant that a timestamp names, in nanoseconds since the epoch: a date,
/// `T`, a clock time, and `Z`, a zone offset or neither. An instant further from
/// the epoch than [`LIMIT`] counts as that far.
pub open spec fn instant_of(iso: Seq<char>) -> Option<int> {
    let s = text::trimmed(iso);
    let k = text::first_index(s, 'T');
    if k >= s.len() {
        None
    } else {
        let rest = without_z(s.skip(k + 1));
        let c = first_sign(rest);
        match (date_days(s.take(k)), clock_ns(rest.take(c)), zone_ns(rest.skip(c))) {
            (Some(days), Some(clock), Some(zone)) => Some(limited(days * DAY + clock - zone)),
            _ => None,
        }
    }
}

/// Reads a date as days from 1970-01-01.
fn read_date(date: &Vec<char>) -> (r: Option<i64>)
    ensures
        match r {
            Some(v) => date_days(date@) == Some(v as int) && -719_900 <= v <= 2_000_000_000_000,
            None => date_days(date@) is None,
        },
{
    let ps: Vec<Vec<char>> = split_chars(date, '-');
    let ghost views = text::pieces(date@, '-');
    assert(views.len() == ps@.len());
    if ps.len() < 3 {
        return None;
    }
    assert(views[0] == ps@[0]@ && views[1] == ps@[1]@ && views[2] == ps@[2]@);
    match (read_natural(&ps[0]), read_natural(&ps[1]), read_natural(&ps[2])) {
        (Some(y), Some(mo), Some(d)) => Some(civil_days(y, mo, d)),
        _ => None,
    }
}

/// The sum of two amounts, but at most [`LIMIT`].
fn amount_sum(a: u128, b: u128) -> (r: u128)
    requires
        a <= LIMIT,
        b <= LIMIT,
    ensures
        r == numbers::at_most((a + b) as nat, LIMIT as nat),
{
    if a + b <= LIMIT {
        a + b
    } else {
        LIMIT
    }
}

/// The sum of two instants or offsets, no further from zero than [`LIMIT`].
fn limited_sum(a: i128, b: i128) -> (r: i128)
    requires
        -(LIMIT as int) <= a <= LIMIT,
        -(LIMIT as int) <= b <= LIMIT,
    ensures
        r == limited(a + b),
{
    let limit: i128 = LIMIT as i128;
    match a.checked_add(b) {
        Some(v) => if v < -limit {
            -limit
        } else {
            v
        },
        None => if a > 0 {
            limit
        } else {
            -limit
        },
    }
}

/// Reads a seconds field as nanoseconds.
fn read_seconds(cs: &Vec<char>) -> (r: Option<u128>)
    ensures
        match r {
            Some(v) => seconds_of(cs@) == Some(v as nat) && v <= LIMIT,
            None => seconds_of(cs@) is None,
        },
{
    let dot: usize = find_char(cs, '.');
    if dot >= cs.len() {
        return read_amount(cs, SECOND_NS);
    }
    let whole: Vec<char> = cut(cs, 0, dot);
    let mut fraction: Vec<char> = vec!['0', '.'];
    let mut behind: Vec<char> = cut(cs, dot + 1, cs.len());
    proof {
        assert(whole@ =~= cs@.take(dot as int));
        assert(fraction@ =~= seq!['0', '.']);
        assert(behind@ =~= cs@.skip(dot + 1));
    }
    fraction.append(&mut behind);
    match (read_amount(&whole, SECOND_NS), read_amount(&fraction, SECOND_NS)) {
        (Some(a), Some(b)) => Some(amount_sum(a, b)),
        _ => None,
    }
}

/// Reads a clock time as nanoseconds from midnight.
fn read_clock(time: &Vec<char>) -> (r: Option<u128>)
    ensures
        match r {
            Some(v) => clock_ns(time@) == Some(v as nat) && v <= LIMIT,
            None => clock_ns(time@) is None,
        },
{
    let ps: Vec<Vec<char>> = split_chars(time, ':');
    let ghost views = text::pieces(time@, ':');
    assert(views.len() == ps@.len());
    if ps.len() < 2 {
        return None;
    }
    assert(views[0] == ps@[0]@ && views[1] == ps@[1]@);
    let sec: Option<u128> = if ps.len() > 2 {
        assert(views[2] == ps@[2]@);
        read_seconds(&ps[2])
    } else {
        Some(0)
    };
    match (read_amount(&ps[0], HOUR_NS), read_amount(&ps[1], MINUTE_NS), sec) {
        (Some(h), Some(m), Some(s)) => Some(amount_sum(amount_sum(h, m), s)),
        _ => None,
    }
}

/// Reads one field of a zone offset.
fn read_offset_field(cs: &Vec<char>, unit: u64) -> (r: i128)
    requires
        1 <= unit <= 3_600_000_000_000,
    ensures
        r == offset_field(cs@, unit as nat),
        -(LIMIT as int) <= r <= LIMIT,
{
    match read_amount(&drop_sign(cs), unit) {
        Some(v) => if cs.len() > 0 && cs[0] == '-' {
            -(v as i128)
        } else {
            v as i128
        },
        None => 0,
    }
}

/// Reads a zone offset.
fn read_zone(zone: &Vec<char>) -> (r: Option<i128>)
    ensures
        match r {
            Some(v) => zone_ns(zone@) == Some(v as int) && -(LIMIT as int) <= v <= LIMIT,
            None => zone_ns(zone@) is None,
        },
{
    if zone.len() > 0 && (zone[0] == '+' || (zone[0] == '-' && find_char(zone, ':') < zone.len())) {
        let fields: Vec<char> = cut(zone, 1, zone.len());
        assert(fields@ =~= zone@.skip(1));
        let ps: Vec<Vec<char>> = split_chars(&fields, ':');
        let ghost views = text::pieces(fields@, ':');
        assert(views.len() == ps@.len());
        assert(views[0] == ps@[0]@);
        assert(views.len() > 1 ==> views[1] == ps@[1]@);
        if nan(&ps[0]) || (ps.len() > 1 && nan(&ps[1])) {
            return None;
        }
        let hours: i128 = read_offset_field(&ps[0], HOUR_NS);
        let minutes: i128 = if ps.len() > 1 {
            read_offset_field(&ps[1], MINUTE_NS)
        } else {
            0
        };
        let size: i128 = limited_sum(hours, minutes);
        Some(
            if zone[0] == '-' {
                -size
            } else {
                size
            },
        )
    } else {
        Some(0)
    }
}

/// Reads a timestamp such as `2026-09-24T11:30:39.123Z` or
/// `2026-09-24T11:30:39.123456+00:00` as nanoseconds since the epoch.
///
/// A field of the clock time or of a zone is a number as Rust reads one: digits,
/// with or without a point and an exponent, or infinity; a field that is spelt as
/// what is no number names no instant. What is not a whole number of nanoseconds is
/// rounded down, field by field, and what is larger than [`LIMIT`] counts as that
/// much.
pub fn ts(iso: &str) -> (r: Option<i128>)
    ensures
        match r {
            Some(t) => instant_of(iso@) == Some(t as int),
            None => instant_of(iso@) is None,
        },
{
    let s: Vec<char> = trim_chars(iso);
    let k: usize = find_char(&s, 'T');
    if k >= s.len() {
        return None;
    }
    let date: Vec<char> = cut(&s, 0, k);
    let end: usize = if s.len() > k + 1 && s[s.len() - 1] == 'Z' {
        s.len() - 1
    } else {
        s.len()
    };
    let rest: Vec<char> = cut(&s, k + 1, end);
    proof {
        assert(date@ =~= s@.take(k as int));
        let tail = s@.skip(k + 1);
        if tail.len() > 0 {
            assert(tail.last() == s@.last());
        }
        assert(rest@ =~= without_z(tail));
    }
    let plus: usize = find_char(&rest, '+');
    let minus: usize = find_char(&rest, '-');
    let c: usize = if plus <= minus {
        plus
    } else {
        minus
    };
    let time: Vec<char> = cut(&rest, 0, c);
    let zone: Vec<char> = cut(&rest, c, rest.len());
    proof {
        assert(time@ =~= rest@.take(c as int));
        assert(zone@ =~= rest@.skip(c as int));
    }
    match (read_date(&date), read_clock(&time), read_zone(&zone)) {
        (Some(days), Some(clock), Some(offset)) => {
            let midnight: i128 = (days as i128) * DAY;
            let since: i128 = clock as i128;
            if offset >= 0 {
                Some(limited_sum(midnight, since - offset))
            } else {
                Some(limited_sum(limited_sum(midnight, since), -offset))
            }
        },
        _ => None,
    }
}

} // verus!
