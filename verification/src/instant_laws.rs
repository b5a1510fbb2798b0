//! The calendar counts days as the Gregorian calendar does, and timestamps read as
//! the instants that they name.
use crate::instant;
use crate::dates;
use crate::model::DAY;
use crate::numbers;
use crate::text;
use crate::text_laws;
use vstd::arithmetic::div_mod::*;
use vstd::prelude::*;

verus! {

/// A leap year of the Gregorian calendar.
pub open spec fn is_leap(y: int) -> bool {
    y % 4 == 0 && (y % 100 != 0 || y % 400 == 0)
}

/// The number of days of a month.
pub open spec fn month_length(y: int, mo: int) -> int {
    if mo == 2 {
        if is_leap(y) {
            29
        } else {
            28
        }
    } else if mo == 4 || mo == 6 || mo == 9 || mo == 11 {
        30
    } else {
        31
    }
}

/// The days before the March year `y`, counted without eras.
proof fn lemma_year_days(y: int)
    ensures
        (y / 400) * 146097 + (y - (y / 400) * 400) * 365 + (y - (y / 400) * 400) / 4 - (y - (y / 400)
            * 400) / 100 == 365 * y + y / 4 - y / 100 + y / 400,
{
    let era = y / 400;
    let yoe = y - era * 400;
    assert(y / 4 == era * 100 + yoe / 4);
    assert(y / 100 == era * 4 + yoe / 100);
}

/// The epoch is day zero.
pub proof fn law_epoch_is_day_zero()
    ensures
        instant::days_from_civil(1970, 1, 1) == 0,
{
}

/// The next day of a month is the next day.
pub proof fn law_next_day(y: int, mo: int, d: int)
    ensures
        instant::days_from_civil(y, mo, d + 1) == instant::days_from_civil(y, mo, d) + 1,
{
}

/// The first day of the next month comes as many days later as the month is long.
pub proof fn law_next_month(y: int, mo: int)
    requires
        1 <= mo < 12,
    ensures
        instant::days_from_civil(y, mo + 1, 1) == instant::days_from_civil(y, mo, 1) + month_length(
            y,
            mo,
        ),
{
    lemma_year_days(y);
    lemma_year_days(y - 1);
    if mo == 2 {
        assert(y / 4 - (y - 1) / 4 == (if y % 4 == 0 {
            1int
        } else {
            0
        }));
        assert(y / 100 - (y - 1) / 100 == (if y % 100 == 0 {
            1int
        } else {
            0
        }));
        assert(y / 400 - (y - 1) / 400 == (if y % 400 == 0 {
            1int
        } else {
            0
        }));
        assert(y % 100 == 0 ==> y % 4 == 0);
        assert(y % 400 == 0 ==> y % 100 == 0);
    }
}

/// New Year's Day comes 31 days after the first of December.
pub proof fn law_next_year(y: int)
    ensures
        instant::days_from_civil(y + 1, 1, 1) == instant::days_from_civil(y, 12, 1) + 31,
{
    lemma_year_days(y);
}

/// Earlier months of a year start earlier.
proof fn lemma_months_ascend(y: int, a: int, b: int)
    requires
        1 <= a < b <= 12,
    ensures
        instant::days_from_civil(y, a, 1) + month_length(y, a) <= instant::days_from_civil(y, b, 1),
    decreases b - a,
{
    law_next_month(y, b - 1);
    if a < b - 1 {
        lemma_months_ascend(y, a, b - 1);
    }
}

/// Earlier years start earlier, by whole years.
proof fn lemma_years_ascend(a: int, b: int)
    requires
        a < b,
    ensures
        instant::days_from_civil(a, 12, 31) < instant::days_from_civil(b, 1, 1),
    decreases b - a,
{
    law_next_year(b - 1);
    law_next_day(b - 1, 12, 30);
    if a < b - 1 {
        lemma_years_ascend(a, b - 1);
        lemma_months_ascend(b - 1, 1, 12);
    }
}

/// A day of the Gregorian calendar.
pub open spec fn is_date(y: int, mo: int, d: int) -> bool {
    1 <= mo <= 12 && 1 <= d <= month_length(y, mo)
}

/// One date comes before another.
pub open spec fn date_before(y1: int, mo1: int, d1: int, y2: int, mo2: int, d2: int) -> bool {
    y1 < y2 || (y1 == y2 && (mo1 < mo2 || (mo1 == mo2 && d1 < d2)))
}

/// Of two dates the earlier has the smaller day count; so no two dates share one.
pub proof fn law_dates_keep_their_order(y1: int, mo1: int, d1: int, y2: int, mo2: int, d2: int)
    requires
        is_date(y1, mo1, d1),
        is_date(y2, mo2, d2),
        date_before(y1, mo1, d1, y2, mo2, d2),
    ensures
        instant::days_from_civil(y1, mo1, d1) < instant::days_from_civil(y2, mo2, d2),
{
    if y1 < y2 {
        lemma_years_ascend(y1, y2);
        if mo1 < 12 {
            lemma_months_ascend(y1, mo1, 12);
        }
        if mo2 > 1 {
            lemma_months_ascend(y2, 1, mo2);
        }
    } else if mo1 < mo2 {
        lemma_months_ascend(y1, mo1, mo2);
    }
}

/// A date and a clock time with a `T` between, as a timestamp starts.
pub open spec fn stamp_text(
    y: int,
    mo: int,
    d: int,
    h: int,
    mi: int,
    s: int,
    frac: Option<Seq<char>>,
) -> Seq<char> {
    dates::date_of(y, mo, d) + seq!['T'] + clock_text(h, mi, s, frac)
}

/// A clock time, with or without a fraction of a second.
pub open spec fn clock_text(h: int, mi: int, s: int, frac: Option<Seq<char>>) -> Seq<char> {
    dates::padded(h, 2) + seq![':'] + dates::padded(mi, 2) + seq![':'] + seconds_text(
        dates::padded(s, 2),
        frac,
    )
}

/// Seconds, with or without a fraction.
pub open spec fn seconds_text(whole: Seq<char>, frac: Option<Seq<char>>) -> Seq<char> {
    match frac {
        Some(f) => whole + seq!['.'] + f,
        None => whole,
    }
}

/// Whether `frac`, where it is there, is digits.
pub open spec fn is_fraction(frac: Option<Seq<char>>) -> bool {
    match frac {
        Some(f) => numbers::all_digits(f) && f.len() > 0,
        None => true,
    }
}

/// The nanoseconds of the digits behind a point, rounded down.
pub open spec fn digits_ns(f: Seq<char>) -> nat {
    numbers::digits_value(f) * (instant::SECOND_NS as nat) / numbers::power_of_ten(f.len())
}

/// The nanoseconds of a fraction of a second; none where there is no fraction.
pub open spec fn fraction_ns(frac: Option<Seq<char>>) -> nat {
    match frac {
        Some(f) => digits_ns(f),
        None => 0,
    }
}

/// Digits hold nothing but digits.
proof fn lemma_no_other(s: Seq<char>, c: char)
    requires
        numbers::all_digits(s),
        !numbers::is_digit(c),
    ensures
        !s.contains(c),
{
    if s.contains(c) {
        let k = choose|k: int| 0 <= k < s.len() && s[k] == c;
        assert(numbers::is_digit(s[k]));
    }
}

/// A text that starts with a digit does not spell infinity.
proof fn lemma_not_infinite(s: Seq<char>)
    requires
        s.len() > 0,
        numbers::is_digit(s[0]),
    ensures
        !numbers::is_infinite(s),
        !numbers::is_nan(s),
{
    reveal_strlit("inf");
    reveal_strlit("INF");
    reveal_strlit("infinity");
    reveal_strlit("INFINITY");
    reveal_strlit("nan");
    reveal_strlit("NAN");
}

/// Digits are a number.
proof fn lemma_whole(s: Seq<char>, unit: nat)
    requires
        numbers::all_digits(s),
        s.len() > 0,
        numbers::digits_value(s) <= i32::MAX,
        unit <= instant::HOUR_NS,
    ensures
        numbers::amount_of(s, unit) == Some(numbers::digits_value(s) * unit),
        numbers::digits_value(s) * unit <= i32::MAX * instant::HOUR_NS,
        !numbers::is_nan(s),
{
    assert(numbers::is_digit(s[0]));
    lemma_not_infinite(s);
    lemma_no_other(s, 'e');
    lemma_no_other(s, 'E');
    lemma_no_other(s, '.');
    text_laws::lemma_no_index(s, 'e');
    text_laws::lemma_no_index(s, 'E');
    text_laws::lemma_no_index(s, '.');
    assert(s.take(s.len() as int) =~= s);
    assert(numbers::before_point(s) =~= s);
    assert(numbers::before_point(s) + numbers::after_point(s) =~= s);
    assert(numbers::power_of_ten(0) == 1);
    let d = numbers::digits_value(s);
    assert(d * unit <= i32::MAX * instant::HOUR_NS && d * unit * 1 == d * unit) by (nonlinear_arith)
        requires
            0 <= d <= i32::MAX,
            0 <= unit <= instant::HOUR_NS,
    ;
}

/// A nought, a point and digits are a fraction of a second.
proof fn lemma_fraction(frac: Seq<char>)
    requires
        numbers::all_digits(frac),
        frac.len() > 0,
    ensures
        numbers::amount_of(seq!['0', '.'] + frac, instant::SECOND_NS as nat) == Some(
            digits_ns(frac),
        ),
        digits_ns(frac) < instant::SECOND_NS,
{
    let s = seq!['0', '.'] + frac;
    let lead = seq!['0'];
    assert(s[0] == '0');
    lemma_not_infinite(s);
    lemma_no_other(frac, 'e');
    lemma_no_other(frac, 'E');
    lemma_no_other(lead, '.');
    text_laws::lemma_lacks(seq!['0', '.'], frac, 'e');
    text_laws::lemma_lacks(seq!['0', '.'], frac, 'E');
    text_laws::lemma_no_index(s, 'e');
    text_laws::lemma_no_index(s, 'E');
    assert(s =~= lead + seq!['.'] + frac);
    text_laws::lemma_first_index(lead, '.', frac);
    assert(s.take(s.len() as int) =~= s);
    assert(numbers::before_point(s) =~= lead);
    assert(numbers::after_point(s) =~= frac);
    numbers::lemma_digits_concat(lead, frac);
    assert(lead.drop_last() =~= Seq::empty());
    assert(numbers::digits_value(lead.drop_last()) == 0);
    assert(numbers::digits_value(lead) == 0);
    numbers::lemma_digits_bound(frac);
    let d = numbers::digits_value(frac) as int;
    let p = numbers::power_of_ten(frac.len()) as int;
    assert(0 * p == 0) by (nonlinear_arith);
    assert(d * 1_000_000_000 < p * 1_000_000_000);
    lemma_multiply_divide_lt(d * 1_000_000_000, p, 1_000_000_000);
}

/// Digits, with or without a point and digits behind them, are a number of seconds.
proof fn lemma_seconds(a: Seq<char>, frac: Option<Seq<char>>)
    requires
        numbers::all_digits(a),
        a.len() > 0,
        numbers::digits_value(a) <= i32::MAX,
        is_fraction(frac),
    ensures
        instant::seconds_of(seconds_text(a, frac)) == Some(
            numbers::digits_value(a) * (instant::SECOND_NS as nat) + fraction_ns(frac),
        ),
        fraction_ns(frac) < instant::SECOND_NS,
{
    let s = seconds_text(a, frac);
    lemma_no_other(a, '.');
    lemma_whole(a, instant::SECOND_NS as nat);
    match frac {
        Some(f) => {
            text_laws::lemma_first_index(a, '.', f);
            assert(s.take(a.len() as int) =~= a);
            assert(s.skip(a.len() as int + 1) =~= f);
            lemma_fraction(f);
        },
        None => {
            text_laws::lemma_no_index(a, '.');
        },
    }
}

/// A character that is neither digit nor point is not among seconds.
proof fn lemma_seconds_lack(a: Seq<char>, frac: Option<Seq<char>>, x: char)
    requires
        numbers::all_digits(a),
        is_fraction(frac),
        !numbers::is_digit(x),
        x != '.',
    ensures
        !seconds_text(a, frac).contains(x),
{
    lemma_no_other(a, x);
    if let Some(f) = frac {
        lemma_no_other(f, x);
        assert(!seq!['.'].contains(x));
        text_laws::lemma_lacks(a, seq!['.'], x);
        text_laws::lemma_lacks(a + seq!['.'], f, x);
    }
}

/// A clock time reads as the time since midnight, holds no sign, and ends in a
/// digit.
proof fn lemma_clock(h: i32, mi: i32, s: i32, frac: Option<Seq<char>>)
    requires
        h >= 0,
        mi >= 0,
        s >= 0,
        is_fraction(frac),
    ensures
        fraction_ns(frac) < instant::SECOND_NS,
        instant::clock_ns(clock_text(h as int, mi as int, s as int, frac)) == Some(
            (h * (instant::HOUR_NS as int) + mi * (instant::MINUTE_NS as int) + s * (
            instant::SECOND_NS as int) + fraction_ns(frac)) as nat,
        ),
        !clock_text(h as int, mi as int, s as int, frac).contains('+'),
        !clock_text(h as int, mi as int, s as int, frac).contains('-'),
        clock_text(h as int, mi as int, s as int, frac).len() > 0,
        numbers::is_digit(clock_text(h as int, mi as int, s as int, frac).last()),
{
    let a = dates::padded(h as int, 2);
    let b = dates::padded(mi as int, 2);
    let c = dates::padded(s as int, 2);
    let e = seconds_text(c, frac);
    dates::lemma_padded(h, 2);
    dates::lemma_padded(mi, 2);
    dates::lemma_padded(s, 2);
    lemma_no_other(a, ':');
    lemma_no_other(b, ':');
    lemma_seconds_lack(c, frac, ':');
    text_laws::lemma_one_piece(a, ':');
    text_laws::lemma_more_pieces(a, ':', b);
    text_laws::lemma_more_pieces(a + seq![':'] + b, ':', e);
    lemma_whole(a, instant::HOUR_NS as nat);
    lemma_whole(b, instant::MINUTE_NS as nat);
    lemma_seconds(c, frac);
    lemma_clock_lacks(a, b, c, frac, '+');
    lemma_clock_lacks(a, b, c, frac, '-');
    assert(e.len() > 0 && numbers::is_digit(e.last())) by {
        match frac {
            Some(f) => {
                assert(e.last() == f[f.len() - 1]);
            },
            None => {
                assert(e.last() == c[c.len() - 1]);
            },
        }
    }
    assert(clock_text(h as int, mi as int, s as int, frac).last() == e.last());
}

/// A character that is neither digit nor colon nor point is not in a clock time.
proof fn lemma_clock_lacks(
    a: Seq<char>,
    b: Seq<char>,
    c: Seq<char>,
    frac: Option<Seq<char>>,
    x: char,
)
    requires
        numbers::all_digits(a),
        numbers::all_digits(b),
        numbers::all_digits(c),
        is_fraction(frac),
        !numbers::is_digit(x),
        x != '.',
        x != ':',
    ensures
        !(a + seq![':'] + b + seq![':'] + seconds_text(c, frac)).contains(x),
{
    lemma_no_other(a, x);
    lemma_no_other(b, x);
    lemma_seconds_lack(c, frac, x);
    assert(!seq![':'].contains(x));
    text_laws::lemma_lacks(a, seq![':'], x);
    text_laws::lemma_lacks(a + seq![':'], b, x);
    text_laws::lemma_lacks(a + seq![':'] + b, seq![':'], x);
    text_laws::lemma_lacks(a + seq![':'] + b + seq![':'], seconds_text(c, frac), x);
}

/// A date reads as its day, and holds no `T`.
proof fn lemma_date(y: i32, mo: i32, d: i32)
    requires
        y >= 0,
        mo >= 0,
        d >= 0,
    ensures
        instant::date_days(dates::date_of(y as int, mo as int, d as int)) == Some(
            instant::days_from_civil(y as int, mo as int, d as int),
        ),
        !dates::date_of(y as int, mo as int, d as int).contains('T'),
{
    let a = dates::padded(y as int, 4);
    let b = dates::padded(mo as int, 2);
    let c = dates::padded(d as int, 2);
    dates::lemma_padded(y, 4);
    dates::lemma_padded(mo, 2);
    dates::lemma_padded(d, 2);
    text_laws::lemma_one_piece(a, '-');
    text_laws::lemma_more_pieces(a, '-', b);
    text_laws::lemma_more_pieces(a + seq!['-'] + b, '-', c);
    lemma_no_other(a, 'T');
    lemma_no_other(b, 'T');
    lemma_no_other(c, 'T');
    assert(!seq!['-'].contains('T'));
    text_laws::lemma_lacks(a, seq!['-'], 'T');
    text_laws::lemma_lacks(a + seq!['-'], b, 'T');
    text_laws::lemma_lacks(a + seq!['-'] + b, seq!['-'], 'T');
    text_laws::lemma_lacks(a + seq!['-'] + b + seq!['-'], c, 'T');
}

/// What a clock time and a zone of 32-bit fields name is no further away than the
/// limit.
proof fn lemma_within_limit(y: i32, mo: i32, d: i32, clock: int, zone: int)
    requires
        y >= 0,
        mo >= 0,
        d >= 0,
        0 <= clock <= 4 * i32::MAX * instant::HOUR_NS,
        -(2 * i32::MAX * instant::HOUR_NS) <= zone <= 2 * i32::MAX * instant::HOUR_NS,
    ensures
        instant::limited(
            instant::days_from_civil(y as int, mo as int, d as int) * DAY + clock - zone,
        ) == instant::days_from_civil(y as int, mo as int, d as int) * DAY + clock - zone,
{
    let days = instant::days_from_civil(y as int, mo as int, d as int);
    assert(-719_900 <= days <= 2_000_000_000_000);
}

/// Whether `end` can follow a clock time: nothing, `Z`, or an offset.
spec fn is_end(end: Seq<char>) -> bool {
    ||| end == Seq::<char>::empty()
    ||| end == seq!['Z']
    ||| end.len() > 0 && (end[0] == '+' || end[0] == '-') && numbers::is_digit(end.last())
}

/// A date, `T`, a clock time and what follows it are read apart.
proof fn lemma_parts(date: Seq<char>, clock: Seq<char>, end: Seq<char>)
    requires
        date.len() > 0,
        !text::is_space(date[0]),
        !date.contains('T'),
        !clock.contains('+'),
        !clock.contains('-'),
        clock.len() > 0,
        numbers::is_digit(clock.last()),
        is_end(end),
    ensures
        ({
            let iso = date + seq!['T'] + clock + end;
            let rest = instant::without_z(iso.skip(date.len() as int + 1));
            &&& text::trimmed(iso) == iso
            &&& text::first_index(iso, 'T') == date.len()
            &&& iso.take(date.len() as int) == date
            &&& instant::first_sign(rest) == clock.len()
            &&& rest.take(clock.len() as int) == clock
            &&& rest.skip(clock.len() as int) == if end == seq!['Z'] {
                Seq::empty()
            } else {
                end
            }
        }),
{
    let iso = date + seq!['T'] + clock + end;
    let behind = clock + end;
    assert(iso[0] == date[0]);
    assert(iso.last() == behind.last());
    if end.len() > 0 {
        assert(behind.last() == end.last());
    } else {
        assert(behind =~= clock);
    }
    text_laws::lemma_trimmed(iso);
    assert(iso =~= date + seq!['T'] + behind);
    text_laws::lemma_first_index(date, 'T', behind);
    assert(iso.take(date.len() as int) =~= date);
    assert(iso.skip(date.len() as int + 1) =~= behind);
    let rest = instant::without_z(behind);
    if end == seq!['Z'] || end.len() == 0 {
        assert(rest =~= clock);
        text_laws::lemma_no_index(clock, '+');
        text_laws::lemma_no_index(clock, '-');
        assert(rest.take(clock.len() as int) =~= clock);
        assert(rest.skip(clock.len() as int) =~= Seq::empty());
    } else {
        assert(rest == behind);
        let sign = end[0];
        let more = end.skip(1);
        assert(behind =~= clock + seq![sign] + more);
        lemma_not_before(clock, sign, more);
        assert(rest.take(clock.len() as int) =~= clock);
        assert(rest.skip(clock.len() as int) =~= end);
    }
}

/// What follows the clock time decides the zone and nothing else.
proof fn lemma_stamp(
    y: i32,
    mo: i32,
    d: i32,
    h: i32,
    mi: i32,
    s: i32,
    frac: Option<Seq<char>>,
    end: Seq<char>,
    zone: int,
)
    requires
        y >= 0,
        mo >= 0,
        d >= 0,
        h >= 0,
        mi >= 0,
        s >= 0,
        is_fraction(frac),
        is_end(end),
        end == seq!['Z'] ==> zone == 0,
        end != seq!['Z'] ==> instant::zone_ns(end) == Some(zone),
        -(2 * i32::MAX * instant::HOUR_NS) <= zone <= 2 * i32::MAX * instant::HOUR_NS,
    ensures
        instant::instant_of(
            stamp_text(y as int, mo as int, d as int, h as int, mi as int, s as int, frac) + end,
        ) == Some(
            instant::days_from_civil(y as int, mo as int, d as int) * DAY + h * (
            instant::HOUR_NS as int) + mi * (instant::MINUTE_NS as int) + s * (
            instant::SECOND_NS as int) + fraction_ns(frac) - zone,
        ),
{
    let date = dates::date_of(y as int, mo as int, d as int);
    let clock = clock_text(h as int, mi as int, s as int, frac);
    lemma_date(y, mo, d);
    lemma_clock(h, mi, s, frac);
    let since = h * (instant::HOUR_NS as int) + mi * (instant::MINUTE_NS as int) + s * (
    instant::SECOND_NS as int) + fraction_ns(frac);
    lemma_within_limit(y, mo, d, since, zone);
    dates::lemma_padded(y, 4);
    assert(date[0] == dates::padded(y as int, 4)[0]);
    assert(numbers::is_digit(date[0]));
    lemma_parts(date, clock, end);
}

/// The first sign behind a text without signs is the one that follows it.
proof fn lemma_not_before(clock: Seq<char>, sign: char, more: Seq<char>)
    requires
        !clock.contains('+'),
        !clock.contains('-'),
        sign == '+' || sign == '-',
    ensures
        instant::first_sign(clock + seq![sign] + more) == clock.len(),
{
    text_laws::lemma_first_index(clock, sign, more);
    let s = clock + seq![sign] + more;
    let other = if sign == '+' {
        '-'
    } else {
        '+'
    };
    lemma_index_at_least(clock, seq![sign] + more, other);
    assert(s =~= clock + (seq![sign] + more));
}

/// A character that is not in `a` is first found behind it.
pub proof fn lemma_index_at_least(a: Seq<char>, b: Seq<char>, c: char)
    requires
        !a.contains(c),
    ensures
        text::first_index(a + b, c) >= a.len(),
    decreases a.len(),
{
    if a.len() > 0 {
        assert(a[0] != c) by {
            assert(a.contains(a[0]));
        }
        let rest = a.drop_first();
        assert(!rest.contains(c)) by {
            if rest.contains(c) {
                let k = choose|k: int| 0 <= k < rest.len() && rest[k] == c;
                assert(a[k + 1] == c);
            }
        }
        lemma_index_at_least(rest, b, c);
        assert((a + b).drop_first() =~= rest + b);
    } else {
        lemma_index_nonnegative(a + b, c);
    }
}

proof fn lemma_index_nonnegative(s: Seq<char>, c: char)
    ensures
        text::first_index(s, c) >= 0,
    decreases s.len(),
{
    if s.len() > 0 {
        lemma_index_nonnegative(s.drop_first(), c);
    }
}

/// A timestamp `YYYY-MM-DDTHH:MM:SS` or `YYYY-MM-DDTHH:MM:SS.fff`, with a `Z` behind
/// it or nothing, reads as the instant it names, whatever its numbers, and however
/// many digits its fraction has.
pub proof fn law_utc_stamps_are_read(
    y: i32,
    mo: i32,
    d: i32,
    h: i32,
    mi: i32,
    s: i32,
    frac: Option<Seq<char>>,
    end: Seq<char>,
)
    requires
        y >= 0,
        mo >= 0,
        d >= 0,
        h >= 0,
        mi >= 0,
        s >= 0,
        is_fraction(frac),
        end == seq!['Z'] || end == Seq::<char>::empty(),
    ensures
        instant::instant_of(
            stamp_text(y as int, mo as int, d as int, h as int, mi as int, s as int, frac) + end,
        ) == Some(
            instant::days_from_civil(y as int, mo as int, d as int) * DAY + h * (
            instant::HOUR_NS as int) + mi * (instant::MINUTE_NS as int) + s * (
            instant::SECOND_NS as int) + fraction_ns(frac),
        ),
{
    lemma_stamp(y, mo, d, h, mi, s, frac, end, 0);
}

/// A zone offset as text.
pub open spec fn zone_text(sign: char, oh: int, om: int) -> Seq<char> {
    seq![sign] + dates::padded(oh, 2) + seq![':'] + dates::padded(om, 2)
}

/// A timestamp with a zone offset, with or without a fraction, reads as the instant
/// that much earlier, or later where the offset is negative.
pub proof fn law_zoned_stamps_are_read(
    y: i32,
    mo: i32,
    d: i32,
    h: i32,
    mi: i32,
    s: i32,
    frac: Option<Seq<char>>,
    sign: char,
    oh: i32,
    om: i32,
)
    requires
        y >= 0,
        mo >= 0,
        d >= 0,
        h >= 0,
        mi >= 0,
        s >= 0,
        is_fraction(frac),
        sign == '+' || sign == '-',
        oh >= 0,
        om >= 0,
    ensures
        instant::instant_of(
            stamp_text(y as int, mo as int, d as int, h as int, mi as int, s as int, frac)
                + zone_text(sign, oh as int, om as int),
        ) == Some(
            instant::days_from_civil(y as int, mo as int, d as int) * DAY + h * (
            instant::HOUR_NS as int) + mi * (instant::MINUTE_NS as int) + s * (
            instant::SECOND_NS as int) + fraction_ns(frac) - if sign == '+' {
                oh * (instant::HOUR_NS as int) + om * (instant::MINUTE_NS as int)
            } else {
                -(oh * (instant::HOUR_NS as int) + om * (instant::MINUTE_NS as int))
            },
        ),
{
    let zone = zone_text(sign, oh as int, om as int);
    let a = dates::padded(oh as int, 2);
    let b = dates::padded(om as int, 2);
    dates::lemma_padded(oh, 2);
    dates::lemma_padded(om, 2);
    assert(zone.last() == b[b.len() - 1]);
    assert(numbers::is_digit(zone.last()));
    assert(zone[0] == sign);
    lemma_no_other(a, ':');
    lemma_no_other(b, ':');
    assert(!seq![sign].contains(':'));
    text_laws::lemma_lacks(seq![sign], a, ':');
    text_laws::lemma_first_index(seq![sign] + a, ':', b);
    assert(zone.skip(1) =~= a + seq![':'] + b);
    text_laws::lemma_one_piece(a, ':');
    text_laws::lemma_more_pieces(a, ':', b);
    lemma_whole(a, instant::HOUR_NS as nat);
    lemma_whole(b, instant::MINUTE_NS as nat);
    assert(numbers::is_digit(a[0]) && numbers::is_digit(b[0]));
    let ahead = oh * (instant::HOUR_NS as int) + om * (instant::MINUTE_NS as int);
    let offset = if sign == '+' {
        ahead
    } else {
        -ahead
    };
    lemma_stamp(y, mo, d, h, mi, s, frac, zone, offset);
}

/// A timestamp without seconds, or with a zone of hours alone, reads as the instant
/// that it names.
pub proof fn law_short_stamps_are_read(y: i32, mo: i32, d: i32, h: i32, mi: i32, oh: i32)
    requires
        y >= 0,
        mo >= 0,
        d >= 0,
        h >= 0,
        mi >= 0,
        oh >= 0,
    ensures
        ({
            let date = dates::date_of(y as int, mo as int, d as int);
            let clock = dates::padded(h as int, 2) + seq![':'] + dates::padded(mi as int, 2);
            let zone = seq!['+'] + dates::padded(oh as int, 2);
            let days = instant::days_from_civil(y as int, mo as int, d as int);
            let since = h * (instant::HOUR_NS as int) + mi * (instant::MINUTE_NS as int);
            &&& instant::instant_of(date + seq!['T'] + clock) == Some(days * DAY + since)
            &&& instant::instant_of(date + seq!['T'] + clock + seq!['Z']) == Some(
                days * DAY + since,
            )
            &&& instant::instant_of(date + seq!['T'] + clock + zone) == Some(
                days * DAY + since - oh * (instant::HOUR_NS as int),
            )
        }),
{
    let date = dates::date_of(y as int, mo as int, d as int);
    let a = dates::padded(h as int, 2);
    let b = dates::padded(mi as int, 2);
    let c = dates::padded(oh as int, 2);
    let clock = a + seq![':'] + b;
    let zone = seq!['+'] + c;
    let since = h * (instant::HOUR_NS as int) + mi * (instant::MINUTE_NS as int);
    dates::lemma_padded(y, 4);
    dates::lemma_padded(h, 2);
    dates::lemma_padded(mi, 2);
    dates::lemma_padded(oh, 2);
    lemma_date(y, mo, d);
    lemma_no_other(a, ':');
    lemma_no_other(b, ':');
    lemma_no_other(c, ':');
    text_laws::lemma_one_piece(a, ':');
    text_laws::lemma_more_pieces(a, ':', b);
    lemma_whole(a, instant::HOUR_NS as nat);
    lemma_whole(b, instant::MINUTE_NS as nat);
    lemma_whole(c, instant::HOUR_NS as nat);
    lemma_no_other(a, '+');
    lemma_no_other(b, '+');
    lemma_no_other(a, '-');
    lemma_no_other(b, '-');
    assert(!seq![':'].contains('+') && !seq![':'].contains('-'));
    text_laws::lemma_lacks(a, seq![':'], '+');
    text_laws::lemma_lacks(a + seq![':'], b, '+');
    text_laws::lemma_lacks(a, seq![':'], '-');
    text_laws::lemma_lacks(a + seq![':'], b, '-');
    assert(clock.last() == b[b.len() - 1]);
    assert(numbers::is_digit(clock.last()));
    assert(date[0] == dates::padded(y as int, 4)[0]);
    assert(numbers::is_digit(date[0]));
    assert(instant::clock_ns(clock) == Some(since as nat));
    let none = Seq::<char>::empty();
    lemma_parts(date, clock, none);
    assert(date + seq!['T'] + clock + none =~= date + seq!['T'] + clock);
    lemma_parts(date, clock, seq!['Z']);
    lemma_within_limit(y, mo, d, since, 0);
    assert(zone.skip(1) =~= c);
    text_laws::lemma_one_piece(c, ':');
    assert(zone[0] == '+');
    assert(zone.last() == c[c.len() - 1]);
    assert(numbers::is_digit(zone.last()));
    assert(numbers::is_digit(c[0]));
    let ahead = oh * (instant::HOUR_NS as int);
    assert(instant::zone_ns(zone) == Some(ahead));
    lemma_parts(date, clock, zone);
    lemma_within_limit(y, mo, d, since, ahead);
}

/// Whitespace around a timestamp changes nothing.
pub proof fn law_stamps_are_trimmed(front: Seq<char>, s: Seq<char>, end: Seq<char>)
    requires
        forall|i: int| 0 <= i < front.len() ==> text::is_space(#[trigger] front[i]),
        forall|i: int| 0 <= i < end.len() ==> text::is_space(#[trigger] end[i]),
        s.len() > 0,
        !text::is_space(s[0]),
        !text::is_space(s.last()),
    ensures
        instant::instant_of(front + s + end) == instant::instant_of(s),
{
    text_laws::law_trimming_takes_whitespace_away(front, s, end);
    text_laws::lemma_trimmed(s);
}

/// Without a `T` between a date and a clock time there is no instant.
pub proof fn law_no_instant_without_t(s: Seq<char>)
    requires
        !text::trimmed(s).contains('T'),
    ensures
        instant::instant_of(s) is None,
{
    text_laws::lemma_no_index(text::trimmed(s), 'T');
}

/// The units of a clock, in nanoseconds.
pub proof fn law_clock_units()
    ensures
        instant::SECOND_NS == 1_000_000_000,
        instant::MINUTE_NS == 60 * instant::SECOND_NS,
        instant::HOUR_NS == 60 * instant::MINUTE_NS,
{
}

/// A timestamp is made of its parts: the day of its date, the time of its clock, and
/// what its zone is ahead of UTC; without one of these there is no instant.
pub proof fn law_stamps_are_made_of_parts(date: Seq<char>, clock: Seq<char>, end: Seq<char>)
    requires
        date.len() > 0,
        !text::is_space(date[0]),
        !date.contains('T'),
        !clock.contains('+'),
        !clock.contains('-'),
        clock.len() > 0,
        numbers::is_digit(clock.last()),
        end == Seq::<char>::empty() || end == seq!['Z'] || (end.len() > 0 && (end[0] == '+' || end[0]
            == '-') && numbers::is_digit(end.last())),
    ensures
        instant::instant_of(date + seq!['T'] + clock + end) == match (
            instant::date_days(date),
            instant::clock_ns(clock),
            instant::zone_ns(
                if end == seq!['Z'] {
                    Seq::empty()
                } else {
                    end
                },
            ),
        ) {
            (Some(days), Some(since), Some(zone)) => Some(
                if days * DAY + since - zone > i128::MAX {
                    i128::MAX as int
                } else if days * DAY + since - zone < -i128::MAX {
                    -(i128::MAX as int)
                } else {
                    days * DAY + since - zone
                },
            ),
            _ => None,
        },
{
    lemma_parts(date, clock, end);
}

/// A clock time has hours, minutes and perhaps seconds, and each must be a number;
/// what follows a third colon is not read.
pub proof fn law_clock_fields(a: Seq<char>, b: Seq<char>, c: Seq<char>, more: Seq<char>)
    requires
        !a.contains(':'),
        !b.contains(':'),
        !c.contains(':'),
        !more.contains(':'),
    ensures
        instant::clock_ns(a) is None,
        instant::clock_ns(a + seq![':'] + b) == match (
            numbers::amount_of(a, 3_600_000_000_000),
            numbers::amount_of(b, 60_000_000_000),
        ) {
            (Some(h), Some(m)) => Some(numbers::at_most(h + m, i128::MAX as nat)),
            _ => None,
        },
        instant::clock_ns(a + seq![':'] + b + seq![':'] + c) == match (
            numbers::amount_of(a, 3_600_000_000_000),
            numbers::amount_of(b, 60_000_000_000),
            instant::seconds_of(c),
        ) {
            (Some(h), Some(m), Some(s)) => Some(numbers::at_most(h + m + s, i128::MAX as nat)),
            _ => None,
        },
        instant::clock_ns(a + seq![':'] + b + seq![':'] + c + seq![':'] + more) == instant::clock_ns(
            a + seq![':'] + b + seq![':'] + c,
        ),
{
    let two = a + seq![':'] + b;
    let three = two + seq![':'] + c;
    text_laws::lemma_one_piece(a, ':');
    text_laws::lemma_more_pieces(a, ':', b);
    text_laws::lemma_more_pieces(two, ':', c);
    text_laws::lemma_more_pieces(three, ':', more);
}

/// Seconds with a point are two numbers, the whole ones and the fraction; without
/// one they are one.
pub proof fn law_seconds_fields(a: Seq<char>, b: Seq<char>)
    requires
        !a.contains('.'),
    ensures
        instant::seconds_of(a) == numbers::amount_of(a, 1_000_000_000),
        instant::seconds_of(a + seq!['.'] + b) == match (
            numbers::amount_of(a, 1_000_000_000),
            numbers::amount_of(seq!['0', '.'] + b, 1_000_000_000),
        ) {
            (Some(x), Some(y)) => Some(numbers::at_most(x + y, i128::MAX as nat)),
            _ => None,
        },
{
    let s = a + seq!['.'] + b;
    text_laws::lemma_no_index(a, '.');
    text_laws::lemma_first_index(a, '.', b);
    assert(s.take(a.len() as int) =~= a);
    assert(s.skip(a.len() as int + 1) =~= b);
}

/// The nanoseconds of a field of a zone: none where it is no number, and to the
/// other side with a minus sign.
pub open spec fn field_ns(a: Seq<char>, unit: nat) -> int {
    if a.len() > 0 && a[0] == '-' {
        match numbers::amount_of(a.skip(1), unit) {
            Some(v) => -(v as int),
            None => 0,
        }
    } else if a.len() > 0 && a[0] == '+' {
        match numbers::amount_of(a.skip(1), unit) {
            Some(v) => v as int,
            None => 0,
        }
    } else {
        match numbers::amount_of(a, unit) {
            Some(v) => v as int,
            None => 0,
        }
    }
}

/// A zone is ahead of UTC by its hours and minutes, or behind with a minus sign; a
/// field that is no number counts nothing, and with a minus sign it takes a colon to
/// be a zone.
pub proof fn law_zone_fields(a: Seq<char>, b: Seq<char>)
    requires
        !a.contains(':'),
        !b.contains(':'),
        !numbers::is_nan(a),
        !numbers::is_nan(b),
        -i128::MAX <= field_ns(a, 3_600_000_000_000) + field_ns(b, 60_000_000_000) <= i128::MAX,
    ensures
        instant::zone_ns(Seq::empty()) == Some(0int),
        instant::zone_ns(seq!['-'] + a) == Some(0int),
        instant::zone_ns(seq!['+'] + a + seq![':'] + b) == Some(
            field_ns(a, 3_600_000_000_000) + field_ns(b, 60_000_000_000),
        ),
        instant::zone_ns(seq!['-'] + a + seq![':'] + b) == Some(
            -(field_ns(a, 3_600_000_000_000) + field_ns(b, 60_000_000_000)),
        ),
{
    let plus = seq!['+'] + a + seq![':'] + b;
    let minus = seq!['-'] + a + seq![':'] + b;
    assert(plus.skip(1) =~= a + seq![':'] + b);
    assert(minus.skip(1) =~= a + seq![':'] + b);
    text_laws::lemma_one_piece(a, ':');
    text_laws::lemma_more_pieces(a, ':', b);
    assert(!seq!['-'].contains(':'));
    text_laws::lemma_lacks(seq!['-'], a, ':');
    text_laws::lemma_first_index(seq!['-'] + a, ':', b);
    text_laws::lemma_no_index(seq!['-'] + a, ':');
    assert((seq!['-'] + a)[0] == '-');
    assert(plus[0] == '+' && minus[0] == '-');
}

/// A date needs three numbers; what follows a third dash is not read.
pub proof fn law_date_fields(a: Seq<char>, b: Seq<char>, c: Seq<char>, more: Seq<char>)
    requires
        !a.contains('-'),
        !b.contains('-'),
        !c.contains('-'),
        !more.contains('-'),
    ensures
        instant::date_days(a) is None,
        instant::date_days(a + seq!['-'] + b) is None,
        instant::date_days(a + seq!['-'] + b + seq!['-'] + c) == match (
            numbers::natural_of(a),
            numbers::natural_of(b),
            numbers::natural_of(c),
        ) {
            (Some(y), Some(m), Some(d)) => Some(
                instant::days_from_civil(y as int, m as int, d as int),
            ),
            _ => None,
        },
        instant::date_days(a + seq!['-'] + b + seq!['-'] + c + seq!['-'] + more)
            == instant::date_days(a + seq!['-'] + b + seq!['-'] + c),
{
    let two = a + seq!['-'] + b;
    let three = two + seq!['-'] + c;
    text_laws::lemma_one_piece(a, '-');
    text_laws::lemma_more_pieces(a, '-', b);
    text_laws::lemma_more_pieces(two, '-', c);
    text_laws::lemma_more_pieces(three, '-', more);
}

/// Hours alone are a zone behind a plus sign; what is no number is none.
pub proof fn law_hours_alone(a: Seq<char>, b: Seq<char>)
    requires
        !a.contains(':'),
        !b.contains(':'),
        -i128::MAX <= field_ns(a, 3_600_000_000_000) <= i128::MAX,
    ensures
        !numbers::is_nan(a) ==> instant::zone_ns(seq!['+'] + a) == Some(
            field_ns(a, 3_600_000_000_000),
        ),
        numbers::is_nan(a) ==> instant::zone_ns(seq!['+'] + a) is None,
        numbers::is_nan(a) || numbers::is_nan(b) ==> instant::zone_ns(
            seq!['+'] + a + seq![':'] + b,
        ) is None,
{
    let one = seq!['+'] + a;
    let two = seq!['+'] + a + seq![':'] + b;
    assert(one.skip(1) =~= a);
    assert(two.skip(1) =~= a + seq![':'] + b);
    assert(one[0] == '+' && two[0] == '+');
    text_laws::lemma_one_piece(a, ':');
    text_laws::lemma_more_pieces(a, ':', b);
}

/// Behind the `T` everything up to a sign is read as the clock time; only a large
/// `Z` at the end is not part of it.
pub proof fn law_only_z_is_taken_away(date: Seq<char>, rest: Seq<char>)
    requires
        date.len() > 0,
        !text::is_space(date[0]),
        !date.contains('T'),
        rest.len() > 0,
        !text::is_space(rest.last()),
        rest.last() != 'Z',
        !rest.contains('+'),
        !rest.contains('-'),
    ensures
        instant::instant_of(date + seq!['T'] + rest) == match (
            instant::date_days(date),
            instant::clock_ns(rest),
        ) {
            (Some(days), Some(since)) => Some(
                if days * DAY + since > i128::MAX {
                    i128::MAX as int
                } else if days * DAY + since < -i128::MAX {
                    -(i128::MAX as int)
                } else {
                    days * DAY + since
                },
            ),
            _ => None,
        },
        instant::instant_of(date + seq!['T'] + rest.push('Z')) == instant::instant_of(
            date + seq!['T'] + rest,
        ),
{
    let iso = date + seq!['T'] + rest;
    let large = date + seq!['T'] + rest.push('Z');
    assert(iso[0] == date[0] && large[0] == date[0]);
    assert(iso.last() == rest.last());
    assert(large.last() == 'Z');
    text_laws::lemma_trimmed(iso);
    text_laws::lemma_trimmed(large);
    text_laws::lemma_first_index(date, 'T', rest);
    text_laws::lemma_first_index(date, 'T', rest.push('Z'));
    assert(iso.take(date.len() as int) =~= date);
    assert(large.take(date.len() as int) =~= date);
    assert(iso.skip(date.len() as int + 1) =~= rest);
    assert(large.skip(date.len() as int + 1) =~= rest.push('Z'));
    assert(rest.push('Z').drop_last() =~= rest);
    text_laws::lemma_no_index(rest, '+');
    text_laws::lemma_no_index(rest, '-');
    assert(rest.take(rest.len() as int) =~= rest);
    assert(rest.skip(rest.len() as int) =~= Seq::empty());
}

} // verus!
