//! Calendar dates as text: `YYYY-MM-DD`.
use crate::numbers;
use crate::numbers::read_natural;
use crate::text;
use crate::text::{chars_of, split_chars};
use crate::text_laws;
use vstd::prelude::*;

verus! {

/// The digit `d`.
pub open spec fn digit(d: nat) -> char {
    if d == 0 {
        '0'
    } else if d == 1 {
        '1'
    } else if d == 2 {
        '2'
    } else if d == 3 {
        '3'
    } else if d == 4 {
        '4'
    } else if d == 5 {
        '5'
    } else if d == 6 {
        '6'
    } else if d == 7 {
        '7'
    } else if d == 8 {
        '8'
    } else {
        '9'
    }
}

/// The decimal digits of `n`.
pub open spec fn digits_of(n: nat) -> Seq<char>
    decreases n,
{
    if n < 10 {
        seq![digit(n)]
    } else {
        digits_of(n / 10).push(digit(n % 10))
    }
}

/// The text `s` with zeros in front, as many as it takes to make it `width` long.
pub open spec fn zero_filled(s: Seq<char>, width: int) -> Seq<char> {
    if s.len() >= width {
        s
    } else {
        Seq::new((width - s.len()) as nat, |i: int| '0') + s
    }
}

/// `n` in decimal, with its sign where it is negative, and with zeros to make it
/// `width` long.
pub open spec fn padded(n: int, width: int) -> Seq<char> {
    if n < 0 {
        seq!['-'] + zero_filled(digits_of((-n) as nat), width - 1)
    } else {
        zero_filled(digits_of(n as nat), width)
    }
}

/// A date as text: year, month and day, with a dash between.
pub open spec fn date_of(y: int, m: int, d: int) -> Seq<char> {
    padded(y, 4) + seq!['-'] + padded(m, 2) + seq!['-'] + padded(d, 2)
}

/// The digit `d`.
fn digit_char(d: u64) -> (r: char)
    requires
        d < 10,
    ensures
        r == digit(d as nat),
{
    if d == 0 {
        '0'
    } else if d == 1 {
        '1'
    } else if d == 2 {
        '2'
    } else if d == 3 {
        '3'
    } else if d == 4 {
        '4'
    } else if d == 5 {
        '5'
    } else if d == 6 {
        '6'
    } else if d == 7 {
        '7'
    } else if d == 8 {
        '8'
    } else {
        '9'
    }
}

/// Writes the decimal digits of `n`.
fn push_digits(out: &mut Vec<char>, n: u64)
    ensures
        final(out)@ == old(out)@ + digits_of(n as nat),
    decreases n,
{
    if n >= 10 {
        push_digits(out, n / 10);
    }
    let ghost before = out@;
    out.push(digit_char(n % 10));
    assert(out@ =~= old(out)@ + digits_of(n as nat)) by {
        if n >= 10 {
            assert(before == old(out)@ + digits_of((n / 10) as nat));
        }
    }
}

/// Writes `n`, with zeros to make it `width` long.
fn push_padded(out: &mut String, n: i32, width: usize)
    requires
        0 < width <= 16,
    ensures
        final(out)@ == old(out)@ + padded(n as int, width as int),
{
    let mut digits: Vec<char> = Vec::new();
    let mut space: usize = width;
    let size: u64 = if n < 0 {
        out.push('-');
        space = width - 1;
        (-(n as i64)) as u64
    } else {
        n as u64
    };
    push_digits(&mut digits, size);
    assert(digits@ =~= digits_of(size as nat));
    let ghost start = out@;
    let mut fill: usize = if digits.len() < space {
        space - digits.len()
    } else {
        0
    };
    let ghost zeros: nat = fill as nat;
    assert(start + Seq::new((zeros - fill) as nat, |i: int| '0') =~= start);
    while fill > 0
        invariant
            fill <= zeros,
            out@ == start + Seq::new((zeros - fill) as nat, |i: int| '0'),
        decreases fill,
    {
        let ghost before = out@;
        out.push('0');
        assert(out@ =~= start + Seq::new((zeros - (fill - 1)) as nat, |i: int| '0'));
        fill = fill - 1;
    }
    let ghost filled = out@;
    let mut i: usize = 0;
    assert(filled + digits@.take(0) =~= filled);
    while i < digits.len()
        invariant
            i <= digits@.len(),
            out@ == filled + digits@.take(i as int),
        decreases digits.len() - i,
    {
        out.push(digits[i]);
        assert(filled + digits@.take(i + 1) =~= (filled + digits@.take(i as int)).push(
            digits@[i as int],
        ));
        i = i + 1;
    }
    proof {
        assert(digits@.take(digits@.len() as int) =~= digits@);
        assert(start + zero_filled(digits@, space as int) =~= out@);
        assert(old(out)@ + padded(n as int, width as int) =~= out@);
    }
}

/// A date as text: year, month and day, with a dash between.
pub fn date_text(y: i32, m: i32, d: i32) -> (r: String)
    ensures
        r@ == date_of(y as int, m as int, d as int),
{
    let mut out: String = String::new();
    push_padded(&mut out, y, 4);
    out.push('-');
    push_padded(&mut out, m, 2);
    out.push('-');
    push_padded(&mut out, d, 2);
    assert(out@ =~= date_of(y as int, m as int, d as int));
    out
}

/// The year, month and day that `date` spells: three numbers with a dash between.
pub open spec fn date_parts(date: Seq<char>) -> Option<(i32, i32, i32)> {
    let ps = text::pieces(date, '-');
    if ps.len() == 3 {
        match (
            numbers::natural_of(ps[0]),
            numbers::natural_of(ps[1]),
            numbers::natural_of(ps[2]),
        ) {
            (Some(y), Some(m), Some(d)) => Some((y, m, d)),
            _ => None,
        }
    } else {
        None
    }
}

/// The year, month and day that `date` spells.
pub fn parse_date(date: &str) -> (r: Option<(i32, i32, i32)>)
    ensures
        r == date_parts(date@),
{
    let cs: Vec<char> = chars_of(date);
    let ps: Vec<Vec<char>> = split_chars(&cs, '-');
    let ghost views = text::piece_views(ps@);
    if ps.len() != 3 {
        return None;
    }
    proof {
        assert(views[0] == ps@[0]@);
        assert(views[1] == ps@[1]@);
        assert(views[2] == ps@[2]@);
    }
    match (read_natural(&ps[0]), read_natural(&ps[1]), read_natural(&ps[2])) {
        (Some(y), Some(m), Some(d)) => Some((y, m, d)),
        _ => None,
    }
}

/// Digits read back as the number they were written for.
proof fn lemma_digits(n: nat)
    ensures
        digits_of(n).len() > 0,
        numbers::all_digits(digits_of(n)),
        numbers::digits_value(digits_of(n)) == n,
    decreases n,
{
    let s = digits_of(n);
    if n < 10 {
        assert(s.drop_last() =~= Seq::empty());
        assert(numbers::digits_value(s.drop_last()) == 0);
    } else {
        lemma_digits(n / 10);
        assert(s.drop_last() =~= digits_of(n / 10));
    }
}

/// Zeros in front change nothing.
proof fn lemma_zeros(s: Seq<char>, k: nat)
    requires
        numbers::all_digits(s),
    ensures
        numbers::all_digits(Seq::new(k, |i: int| '0') + s),
        numbers::digits_value(Seq::new(k, |i: int| '0') + s) == numbers::digits_value(s),
    decreases k + s.len(),
{
    let zs = Seq::new(k, |i: int| '0');
    let t = zs + s;
    if s.len() > 0 {
        lemma_zeros(s.drop_last(), k);
        assert(t.drop_last() =~= zs + s.drop_last());
    } else if k > 0 {
        lemma_zeros(s, (k - 1) as nat);
        assert(t.drop_last() =~= Seq::new((k - 1) as nat, |i: int| '0') + s);
    }
}

/// A padded number reads back.
pub proof fn lemma_padded(n: i32, width: int)
    requires
        n >= 0,
    ensures
        numbers::natural_of(padded(n as int, width)) == Some(n),
        numbers::all_digits(padded(n as int, width)),
        numbers::digits_value(padded(n as int, width)) == n,
        padded(n as int, width).len() > 0,
        !padded(n as int, width).contains('-'),
{
    let d = digits_of(n as nat);
    let s = padded(n as int, width);
    lemma_digits(n as nat);
    if d.len() < width {
        lemma_zeros(d, (width - d.len()) as nat);
    }
    assert(numbers::all_digits(s));
    assert(numbers::is_digit(s[0]));
    assert(!s.contains('-')) by {
        if s.contains('-') {
            let k = choose|k: int| 0 <= k < s.len() && s[k] == '-';
            assert(numbers::is_digit(s[k]));
        }
    }
}

/// A written date reads back.
pub proof fn law_dates_read_back(y: i32, m: i32, d: i32)
    requires
        y >= 0,
        m >= 0,
        d >= 0,
    ensures
        date_parts(date_of(y as int, m as int, d as int)) == Some((y, m, d)),
{
    let a = padded(y as int, 4);
    let b = padded(m as int, 2);
    let c = padded(d as int, 2);
    lemma_padded(y, 4);
    lemma_padded(m, 2);
    lemma_padded(d, 2);
    text_laws::lemma_one_piece(a, '-');
    text_laws::lemma_more_pieces(a, '-', b);
    text_laws::lemma_more_pieces(a + seq!['-'] + b, '-', c);
}

/// A text is a date exactly when it is three numbers with a dash between.
pub proof fn law_three_numbers_are_a_date(a: Seq<char>, b: Seq<char>, c: Seq<char>, more: Seq<char>)
    requires
        !a.contains('-'),
        !b.contains('-'),
        !c.contains('-'),
    ensures
        date_parts(a) is None,
        date_parts(a + seq!['-'] + b) is None,
        date_parts(a + seq!['-'] + b + seq!['-'] + c) == match (
            numbers::natural_of(a),
            numbers::natural_of(b),
            numbers::natural_of(c),
        ) {
            (Some(y), Some(m), Some(d)) => Some((y, m, d)),
            _ => None,
        },
        !more.contains('-') ==> date_parts(
            a + seq!['-'] + b + seq!['-'] + c + seq!['-'] + more,
        ) is None,
{
    text_laws::lemma_one_piece(a, '-');
    text_laws::lemma_more_pieces(a, '-', b);
    text_laws::lemma_more_pieces(a + seq!['-'] + b, '-', c);
    if !more.contains('-') {
        text_laws::lemma_more_pieces(a + seq!['-'] + b + seq!['-'] + c, '-', more);
    }
}

/// A date of a year of up to four digits is written with ten characters, with
/// dashes behind the year and the month.
pub proof fn law_dates_are_ten_long(y: int, m: int, d: int)
    requires
        0 <= y < 10000,
        0 <= m < 100,
        0 <= d < 100,
    ensures
        date_of(y, m, d).len() == 10,
        date_of(y, m, d)[4] == '-',
        date_of(y, m, d)[7] == '-',
{
    lemma_width(y as nat);
    lemma_width(m as nat);
    lemma_width(d as nat);
}

proof fn lemma_width(n: nat)
    requires
        n < 10000,
    ensures
        digits_of(n).len() <= 4,
        n < 100 ==> digits_of(n).len() <= 2,
        digits_of(n).len() >= 1,
{
    reveal_with_fuel(digits_of, 5);
}

/// A negative number has a minus sign in front, which takes one of its places.
pub proof fn law_minus_signs(n: int, width: int)
    requires
        n > 0,
    ensures
        padded(-n, width) == seq!['-'] + padded(n, width - 1),
{
}

} // verus!
