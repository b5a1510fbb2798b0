//! Decimal numbers in text.
use crate::instant_laws;
use crate::text;
use crate::text::{chars_of, cut, find_char};
use crate::text_laws;
use vstd::arithmetic::div_mod::*;
use vstd::prelude::*;

verus! {

/// An ASCII decimal digit.
pub open spec fn is_digit(c: char) -> bool {
    '0' <= c <= '9'
}

/// Decimal digits and nothing else; possibly none at all.
pub open spec fn all_digits(s: Seq<char>) -> bool {
    forall|i: int| 0 <= i < s.len() ==> is_digit(#[trigger] s[i])
}

/// The number that the decimal digits `s` spell.
pub open spec fn digits_value(s: Seq<char>) -> nat
    decreases s.len(),
{
    if s.len() == 0 {
        0
    } else {
        digits_value(s.drop_last()) * 10 + ((s.last() as int - '0' as int) as nat)
    }
}

/// The largest amount that is told apart from larger ones: the largest `i128`.
pub const LIMIT: u128 = 170_141_183_460_469_231_731_687_303_715_884_105_727;

/// The smaller of two numbers.
pub open spec fn at_most(v: nat, cap: nat) -> nat {
    if v <= cap {
        v
    } else {
        cap
    }
}

/// The digit that `c` is.
fn digit_at(c: char) -> (r: u128)
    requires
        is_digit(c),
    ensures
        r == c as int - '0' as int,
        r < 10,
{
    (c as u32 - '0' as u32) as u128
}

/// The value of the digits `cs[from..to]`, but at most `cap`.
fn read_digits(cs: &Vec<char>, from: usize, to: usize, cap: u128) -> (r: Option<u128>)
    requires
        from <= to <= cs@.len(),
        cap <= LIMIT,
    ensures
        match r {
            Some(v) => all_digits(cs@.subrange(from as int, to as int)) && v == at_most(
                digits_value(cs@.subrange(from as int, to as int)),
                cap as nat,
            ),
            None => !all_digits(cs@.subrange(from as int, to as int)),
        },
{
    let ghost s = cs@.subrange(from as int, to as int);
    let mut acc: u128 = 0;
    let mut i: usize = from;
    assert(s.take(0) =~= Seq::empty());
    while i < to
        invariant
            from <= i <= to <= cs@.len(),
            cap <= LIMIT,
            s == cs@.subrange(from as int, to as int),
            acc == at_most(digits_value(s.take(i - from)), cap as nat),
            forall|k: int| 0 <= k < i - from ==> is_digit(#[trigger] s[k]),
        decreases to - i,
    {
        let c: char = cs[i];
        assert(s[i - from] == c);
        if !(c >= '0' && c <= '9') {
            return None;
        }
        let d: u128 = digit_at(c);
        proof {
            assert(s.take(i - from + 1).drop_last() =~= s.take(i - from));
            assert(s.take(i - from + 1).last() == c);
        }
        acc = if acc <= cap / 10 && acc * 10 + d <= cap {
            acc * 10 + d
        } else {
            cap
        };
        i = i + 1;
    }
    assert(s.take(s.len() as int) =~= s);
    Some(acc)
}

/// The text as a non-negative `i32`: an optional plus sign, then at least one digit.
pub open spec fn natural_of(s: Seq<char>) -> Option<i32> {
    let body = if s.len() > 0 && s[0] == '+' {
        s.skip(1)
    } else {
        s
    };
    if body.len() > 0 && all_digits(body) && digits_value(body) <= i32::MAX {
        Some(digits_value(body) as i32)
    } else {
        None
    }
}

/// Reads a non-negative `i32`.
pub fn read_natural(cs: &Vec<char>) -> (r: Option<i32>)
    ensures
        r == natural_of(cs@),
{
    let from: usize = if cs.len() > 0 && cs[0] == '+' {
        1
    } else {
        0
    };
    let ghost body = cs@.subrange(from as int, cs@.len() as int);
    proof {
        if from == 1 {
            assert(body =~= cs@.skip(1));
        } else {
            assert(body =~= cs@);
        }
    }
    if from == cs.len() {
        return None;
    }
    match read_digits(cs, from, cs.len(), 2147483648) {
        Some(v) => if v <= 2147483647 {
            Some(v as i32)
        } else {
            None
        },
        None => None,
    }
}

/// Ten to the power `n`.
pub open spec fn power_of_ten(n: nat) -> nat
    decreases n,
{
    if n == 0 {
        1
    } else {
        10 * power_of_ten((n - 1) as nat)
    }
}

/// `d` times ten to the power `k` units of `unit` each, rounded down.
pub open spec fn scaled(d: nat, k: int, unit: nat) -> nat {
    if k >= 0 {
        d * unit * power_of_ten(k as nat)
    } else {
        d * unit / power_of_ten((-k) as nat)
    }
}

/// The part of `s` before its first point.
pub open spec fn before_point(s: Seq<char>) -> Seq<char> {
    s.take(text::first_index(s, '.'))
}

/// The part of `s` after its first point; empty where there is none.
pub open spec fn after_point(s: Seq<char>) -> Seq<char> {
    if text::first_index(s, '.') < s.len() {
        s.skip(text::first_index(s, '.') + 1)
    } else {
        Seq::empty()
    }
}

/// A decimal number: digits, with a point among them or beside them, or without.
pub open spec fn is_decimal(s: Seq<char>) -> bool {
    &&& all_digits(before_point(s))
    &&& all_digits(after_point(s))
    &&& before_point(s).len() + after_point(s).len() > 0
}

/// The place of the first `e`, small or large, or the length of `s`.
pub open spec fn exponent_mark(s: Seq<char>) -> int {
    let small = text::first_index(s, 'e');
    let large = text::first_index(s, 'E');
    if small <= large {
        small
    } else {
        large
    }
}

/// `s` without a sign at its front.
pub open spec fn unsigned(s: Seq<char>) -> Seq<char> {
    if s.len() > 0 && (s[0] == '+' || s[0] == '-') {
        s.skip(1)
    } else {
        s
    }
}

/// Whether `s` starts with a minus sign.
pub open spec fn is_negative(s: Seq<char>) -> bool {
    s.len() > 0 && s[0] == '-'
}

/// `size` with or without a minus sign.
pub open spec fn signed(negative: bool, size: nat) -> int {
    if negative {
        -(size as int)
    } else {
        size as int
    }
}

/// The exponent that `s` spells: digits, with or without a sign.
pub open spec fn exponent_of(s: Seq<char>) -> Option<int> {
    if unsigned(s).len() > 0 && all_digits(unsigned(s)) {
        Some(signed(is_negative(s), digits_value(unsigned(s))))
    } else {
        None
    }
}

/// A number without a sign: its digits, and by which power of ten they are to be
/// multiplied.
pub open spec fn parts_of(s: Seq<char>) -> Option<(nat, int)> {
    let mark = exponent_mark(s);
    let mantissa = s.take(mark);
    let exponent = if mark < s.len() {
        exponent_of(s.skip(mark + 1))
    } else {
        Some(0int)
    };
    if is_decimal(mantissa) {
        match exponent {
            Some(e) => Some(
                (
                    digits_value(before_point(mantissa) + after_point(mantissa)),
                    e - after_point(mantissa).len(),
                ),
            ),
            None => None,
        }
    } else {
        None
    }
}

/// Whether `s` spells the word `small`, whatever the case of its letters; `large`
/// is the word in capitals.
pub open spec fn spells(s: Seq<char>, small: Seq<char>, large: Seq<char>) -> bool {
    s.len() == small.len() && forall|i: int|
        0 <= i < s.len() ==> (#[trigger] s[i] == small[i] || s[i] == large[i])
}

/// Whether `s` spells infinity.
pub open spec fn is_infinite(s: Seq<char>) -> bool {
    spells(s, "inf"@, "INF"@) || spells(s, "infinity"@, "INFINITY"@)
}

/// Whether `s` spells what is no number, with or without a sign.
pub open spec fn is_nan(s: Seq<char>) -> bool {
    spells(unsigned(s), "nan"@, "NAN"@)
}

/// `s` units of `unit` each, rounded down, but at most [`LIMIT`]; `None` where `s`
/// is no number without a sign.
pub open spec fn amount_of(s: Seq<char>, unit: nat) -> Option<nat> {
    if is_infinite(s) {
        Some(LIMIT as nat)
    } else {
        match parts_of(s) {
            Some((d, k)) => Some(at_most(scaled(d, k, unit), LIMIT as nat)),
            None => None,
        }
    }
}

/// Powers of ten are positive, and multiply as their exponents add.
pub proof fn lemma_powers(a: nat, b: nat)
    ensures
        power_of_ten(a) > 0,
        power_of_ten(b) > 0,
        power_of_ten(a + b) == power_of_ten(a) * power_of_ten(b),
    decreases b, a,
{
    if b == 0 {
        if a > 0 {
            lemma_powers((a - 1) as nat, 0);
        }
        assert(power_of_ten(b) == 1);
        assert(power_of_ten(a) * 1 == power_of_ten(a));
    } else {
        lemma_powers(a, (b - 1) as nat);
        let x = power_of_ten(a) as int;
        let y = power_of_ten((b - 1) as nat) as int;
        assert(x * (10 * y) == 10 * (x * y)) by (nonlinear_arith);
        assert(a + b - 1 == a + (b - 1));
        assert(power_of_ten(a + b) == 10 * power_of_ten((a + b - 1) as nat));
    }
}

/// Digits in front of digits count by a power of ten.
pub proof fn lemma_digits_concat(a: Seq<char>, b: Seq<char>)
    ensures
        digits_value(a + b) == digits_value(a) * power_of_ten(b.len()) + digits_value(b),
    decreases b.len(),
{
    if b.len() == 0 {
        assert(a + b =~= a);
        assert(power_of_ten(0) == 1);
    } else {
        let init = b.drop_last();
        lemma_digits_concat(a, init);
        assert((a + b).drop_last() =~= a + init);
        assert((a + b).last() == b.last());
        let x = digits_value(a) as int;
        let p = power_of_ten(init.len()) as int;
        assert((x * p) * 10 == x * (10 * p)) by (nonlinear_arith);
    }
}

/// Digits are worth less than a power of ten.
pub proof fn lemma_digits_bound(s: Seq<char>)
    requires
        all_digits(s),
    ensures
        digits_value(s) < power_of_ten(s.len()),
    decreases s.len(),
{
    if s.len() > 0 {
        let init = s.drop_last();
        assert forall|i: int| 0 <= i < init.len() implies is_digit(#[trigger] init[i]) by {
            assert(init[i] == s[i]);
        }
        lemma_digits_bound(init);
        assert(is_digit(s[s.len() - 1]));
    }
}

/// One more digit in front of a fraction.
proof fn lemma_fraction_step(d: nat, rest: nat, len: nat, unit: nat)
    ensures
        (d * power_of_ten(len) + rest) * unit / power_of_ten(len + 1) == (d * unit + rest * unit
            / power_of_ten(len)) / 10,
{
    let p = power_of_ten(len) as int;
    lemma_powers(len, 1);
    assert(power_of_ten(1) == 10 * power_of_ten(0));
    assert(power_of_ten(0) == 1);
    assert(power_of_ten(len + 1) == p * 10);
    let x = ((d * p + rest) * unit) as int;
    let y = (rest * unit) as int;
    assert(x == y + (d * unit) * p && x >= 0 && y >= 0) by (nonlinear_arith)
        requires
            x == (d * p + rest) * unit,
            y == rest * unit,
            p > 0,
    ;
    lemma_div_denominator(x, p, 10);
    lemma_hoist_over_denominator(y, (d * unit) as int, p as nat);
}

/// Whole digits and a fraction, counted apart.
proof fn lemma_whole_and_fraction(whole: nat, rest: nat, len: nat, unit: nat)
    ensures
        (whole * power_of_ten(len) + rest) * unit / power_of_ten(len) == whole * unit + rest * unit
            / power_of_ten(len),
{
    let p = power_of_ten(len) as int;
    lemma_powers(len, 0);
    let x = ((whole * p + rest) * unit) as int;
    let y = (rest * unit) as int;
    assert(x == y + (whole * unit) * p) by (nonlinear_arith)
        requires
            x == (whole * p + rest) * unit,
            y == rest * unit,
    ;
    lemma_hoist_over_denominator(y, (whole * unit) as int, p as nat);
}

/// A fraction divided by ten once more.
proof fn lemma_divide_more(x: nat, n: nat)
    ensures
        x / power_of_ten(n + 1) == (x / power_of_ten(n)) / 10,
{
    lemma_powers(n, 1);
    assert(power_of_ten(1) == 10 * power_of_ten(0));
    lemma_div_denominator(x as int, power_of_ten(n) as int, 10);
}

/// Ten to the power 39 is beyond the limit.
proof fn lemma_beyond(d: nat, unit: nat, k: nat)
    requires
        d >= 1,
        unit >= 1,
        k >= 39,
    ensures
        d * unit * power_of_ten(k) > LIMIT,
{
    lemma_powers(39, (k - 39) as nat);
    assert(power_of_ten(39) > LIMIT) by {
        reveal_with_fuel(power_of_ten, 40);
    }
    let p = power_of_ten(39) as int;
    let q = power_of_ten((k - 39) as nat) as int;
    assert(d * unit * (p * q) >= p) by (nonlinear_arith)
        requires
            d >= 1,
            unit >= 1,
            p >= 1,
            q >= 1,
    ;
}

/// Digits divided by a power of ten that is large enough leave nothing.
proof fn lemma_beneath(d: nat, n: nat, unit: nat, m: nat)
    requires
        d < power_of_ten(n),
        unit <= 3_600_000_000_000,
        m >= n + 13,
    ensures
        d * unit / power_of_ten(m) == 0,
{
    lemma_powers(n, 13);
    lemma_powers(n + 13, (m - n - 13) as nat);
    assert(power_of_ten(13) == 10_000_000_000_000) by {
        reveal_with_fuel(power_of_ten, 14);
    }
    let p = power_of_ten(n) as int;
    let q = power_of_ten((m - n - 13) as nat) as int;
    let all = power_of_ten(m) as int;
    assert(d * unit < all) by (nonlinear_arith)
        requires
            0 <= d < p,
            0 <= unit <= 3_600_000_000_000,
            all == (p * 10_000_000_000_000) * q,
            q >= 1,
    ;
    lemma_basic_div((d * unit) as int, all);
}

/// Exponents beyond this make every number zero or larger than the limit.
const EXPONENT_CAP: u128 = 1_000_000_000_000_000_000_000_000_000_000;

/// An exponent beyond the cap counts as the cap.
proof fn lemma_exponent_cap(d: nat, n: nat, f: nat, e: nat, unit: nat)
    requires
        d < power_of_ten(n),
        n <= 0xffff_ffff_ffff_ffff,
        f <= n,
        1 <= unit <= 3_600_000_000_000,
    ensures
        at_most(scaled(d, e - f, unit), LIMIT as nat) == at_most(
            scaled(d, at_most(e, EXPONENT_CAP as nat) - f, unit),
            LIMIT as nat,
        ),
        at_most(scaled(d, -(e as int) - f, unit), LIMIT as nat) == at_most(
            scaled(d, -(at_most(e, EXPONENT_CAP as nat) as int) - f, unit),
            LIMIT as nat,
        ),
{
    if e > EXPONENT_CAP {
        let c = EXPONENT_CAP as nat;
        if d == 0 {
            assert(0 * unit * power_of_ten((e - f) as nat) == 0) by (nonlinear_arith);
            assert(0 * unit * power_of_ten((c - f) as nat) == 0) by (nonlinear_arith);
        } else {
            lemma_beyond(d, unit, (e - f) as nat);
            lemma_beyond(d, unit, (c - f) as nat);
        }
        lemma_beneath(d, n, unit, (e + f) as nat);
        lemma_beneath(d, n, unit, (c + f) as nat);
    }
}

/// `x` times `y`, but at most [`LIMIT`].
fn times(x: u128, y: u128) -> (r: u128)
    requires
        x <= LIMIT,
    ensures
        r == at_most((x * y) as nat, LIMIT as nat),
{
    assert(x * y >= 0) by (nonlinear_arith);
    match x.checked_mul(y) {
        Some(v) => if v <= LIMIT {
            v
        } else {
            LIMIT
        },
        None => LIMIT,
    }
}

/// The amount of the digits `ds` times ten to the power `k`, where that is no
/// fraction.
fn scale_up(ds: &Vec<char>, k: u128, unit: u64) -> (r: u128)
    requires
        all_digits(ds@),
        1 <= unit,
    ensures
        r == at_most(scaled(digits_value(ds@), k as int, unit as nat), LIMIT as nat),
{
    let ghost d = digits_value(ds@);
    assert(ds@.subrange(0, ds@.len() as int) =~= ds@);
    let whole: u128 = match read_digits(ds, 0, ds.len(), LIMIT) {
        Some(v) => v,
        None => 0,
    };
    if whole == 0 {
        assert(0 * unit * power_of_ten(k as nat) == 0) by (nonlinear_arith);
        return 0;
    }
    let mut v: u128 = times(whole, unit as u128);
    let mut j: u128 = 0;
    proof {
        lemma_at_most_times(d, whole as nat, unit as nat);
        assert(whole * unit >= 1) by (nonlinear_arith)
            requires
                whole >= 1,
                unit >= 1,
        ;
        assert(power_of_ten(0) == 1);
        assert(d * unit * 1 == d * unit);
    }
    while j < k && v < LIMIT
        invariant
            j <= k,
            1 <= v <= LIMIT,
            v == at_most(d * unit as nat * power_of_ten(j as nat), LIMIT as nat),
        decreases LIMIT - v,
    {
        let ghost x = d * unit as nat * power_of_ten(j as nat);
        let ghost p = power_of_ten(j as nat);
        assert(d * unit as nat * (10 * p) == x * 10) by (nonlinear_arith)
            requires
                x == d * unit as nat * p,
        ;
        v = times(v, 10);
        j = j + 1;
    }
    proof {
        if j < k {
            lemma_powers(j as nat, (k - j) as nat);
            let p = power_of_ten(j as nat) as int;
            let q = power_of_ten((k - j) as nat) as int;
            let x = d * unit as nat;
            assert(x * (p * q) >= x * p) by (nonlinear_arith)
                requires
                    x >= 0,
                    p >= 1,
                    q >= 1,
            ;
        }
    }
    v
}

/// Clamping a factor first makes no difference to a clamped product.
proof fn lemma_at_most_times(d: nat, c: nat, unit: nat)
    requires
        c == at_most(d, LIMIT as nat),
        unit >= 1,
    ensures
        at_most(c * unit, LIMIT as nat) == at_most(d * unit, LIMIT as nat),
{
    if d > LIMIT {
        assert(d * unit >= LIMIT && c * unit >= LIMIT) by (nonlinear_arith)
            requires
                d > LIMIT,
                c == LIMIT,
                unit >= 1,
        ;
    }
}

/// The fraction that the digits `ds[from..]` behind a point are of `unit`, rounded
/// down.
fn fraction(ds: &Vec<char>, from: usize, unit: u64) -> (r: u128)
    requires
        all_digits(ds@),
        from <= ds@.len(),
        unit <= 3_600_000_000_000,
    ensures
        r == digits_value(ds@.skip(from as int)) * (unit as nat) / power_of_ten(
            (ds@.len() - from) as nat,
        ),
        r <= unit,
{
    let n: usize = ds.len();
    let mut i: usize = n;
    let mut c: u128 = 0;
    proof {
        assert(ds@.skip(n as int) =~= Seq::empty());
        assert(power_of_ten(0) == 1);
        assert(0 * (unit as nat) == 0);
    }
    while i > from
        invariant
            from <= i <= n,
            n == ds@.len(),
            all_digits(ds@),
            unit <= 3_600_000_000_000,
            c <= unit,
            c == digits_value(ds@.skip(i as int)) * (unit as nat) / power_of_ten((n - i) as nat),
        decreases i,
    {
        let ghost rest = ds@.skip(i as int);
        let ghost one = seq![ds@[i - 1]];
        let d: u128 = digit_at(ds[i - 1]);
        proof {
            assert(is_digit(ds@[i - 1]));
            assert(ds@.skip(i - 1) =~= one + rest);
            lemma_digits_concat(one, rest);
            assert(one.drop_last() =~= Seq::empty());
            assert(digits_value(one.drop_last()) == 0);
            assert(digits_value(one) == d);
            lemma_fraction_step(d as nat, digits_value(rest), (n - i) as nat, unit as nat);
            assert(d * unit <= 9 * unit && d * unit >= 0) by (nonlinear_arith)
                requires
                    0 <= d <= 9,
                    0 <= unit,
            ;
        }
        c = (d * (unit as u128) + c) / 10;
        i = i - 1;
    }
    c
}

/// The amount of the digits `ds` divided by ten to the power `m`.
fn scale_down(ds: &Vec<char>, m: u128, unit: u64) -> (r: u128)
    requires
        all_digits(ds@),
        1 <= m,
        1 <= unit <= 3_600_000_000_000,
    ensures
        r == at_most(scaled(digits_value(ds@), -(m as int), unit as nat), LIMIT as nat),
{
    let n: u128 = ds.len() as u128;
    let ghost d = digits_value(ds@);
    if m <= n {
        let from: usize = (n - m) as usize;
        let ghost whole_digits = ds@.take(from as int);
        let ghost rest = ds@.skip(from as int);
        proof {
            assert(ds@.subrange(0, from as int) =~= whole_digits);
            assert(whole_digits + rest =~= ds@);
            lemma_digits_concat(whole_digits, rest);
            lemma_whole_and_fraction(
                digits_value(whole_digits),
                digits_value(rest),
                m as nat,
                unit as nat,
            );
            assert forall|i: int| 0 <= i < whole_digits.len() implies is_digit(
                #[trigger] whole_digits[i],
            ) by {
                assert(whole_digits[i] == ds@[i]);
            }
        }
        let whole: u128 = match read_digits(ds, 0, from, LIMIT) {
            Some(v) => v,
            None => 0,
        };
        let v: u128 = times(whole, unit as u128);
        let f: u128 = fraction(ds, from, unit);
        proof {
            lemma_at_most_times(digits_value(whole_digits), whole as nat, unit as nat);
        }
        if v + f <= LIMIT {
            v + f
        } else {
            LIMIT
        }
    } else {
        let mut c: u128 = fraction(ds, 0, unit);
        let mut j: u128 = n;
        let ghost x = d * unit as nat;
        assert(ds@.skip(0) =~= ds@);
        while j < m && c > 0
            invariant
                n <= j <= m,
                c <= 3_600_000_000_000,
                c == x / power_of_ten(j as nat),
            decreases c,
        {
            proof {
                lemma_divide_more(x, j as nat);
            }
            c = c / 10;
            j = j + 1;
        }
        proof {
            if j < m {
                let p = power_of_ten(j as nat) as int;
                let q = power_of_ten((m - j) as nat) as int;
                lemma_powers(j as nat, (m - j) as nat);
                lemma_div_denominator(x as int, p, q);
                assert(0int / q == 0) by (nonlinear_arith)
                    requires
                        q > 0,
                ;
            }
        }
        c
    }
}

/// Whether `cs` spells the word `small`, which is `large` in capitals.
fn spelled(cs: &Vec<char>, small: &str, large: &str) -> (r: bool)
    requires
        small@.len() == large@.len(),
    ensures
        r == spells(cs@, small@, large@),
{
    let a: Vec<char> = chars_of(small);
    let b: Vec<char> = chars_of(large);
    if cs.len() != a.len() {
        return false;
    }
    let mut i: usize = 0;
    while i < cs.len()
        invariant
            i <= cs@.len(),
            a@ == small@,
            b@ == large@,
            cs@.len() == a@.len(),
            a@.len() == b@.len(),
            forall|k: int| 0 <= k < i ==> (#[trigger] cs@[k] == small@[k] || cs@[k] == large@[k]),
        decreases cs.len() - i,
    {
        if cs[i] != a[i] && cs[i] != b[i] {
            return false;
        }
        i = i + 1;
    }
    true
}

/// Whether `cs` spells infinity.
fn infinite(cs: &Vec<char>) -> (r: bool)
    ensures
        r == is_infinite(cs@),
{
    proof {
        reveal_strlit("inf");
        reveal_strlit("INF");
        reveal_strlit("infinity");
        reveal_strlit("INFINITY");
    }
    spelled(cs, "inf", "INF") || spelled(cs, "infinity", "INFINITY")
}

/// `cs` without a sign at its front.
pub fn drop_sign(cs: &Vec<char>) -> (r: Vec<char>)
    ensures
        r@ == unsigned(cs@),
{
    let from: usize = if cs.len() > 0 && (cs[0] == '+' || cs[0] == '-') {
        1
    } else {
        0
    };
    assert(cs@.subrange(from as int, cs@.len() as int) =~= unsigned(cs@));
    cut(cs, from, cs.len())
}

/// Whether `cs` spells what is no number, with or without a sign.
pub fn nan(cs: &Vec<char>) -> (r: bool)
    ensures
        r == is_nan(cs@),
{
    proof {
        reveal_strlit("nan");
        reveal_strlit("NAN");
    }
    spelled(&drop_sign(cs), "nan", "NAN")
}

/// Reads an exponent: whether it is negative, and its size, but at most the cap.
fn read_exponent(cs: &Vec<char>) -> (r: Option<(bool, u128)>)
    ensures
        match r {
            Some((negative, size)) => exponent_of(cs@) is Some && negative == is_negative(cs@)
                && size == at_most(digits_value(unsigned(cs@)), EXPONENT_CAP as nat),
            None => exponent_of(cs@) is None,
        },
{
    let body: Vec<char> = drop_sign(cs);
    assert(body@.subrange(0, body@.len() as int) =~= body@);
    if body.len() == 0 {
        return None;
    }
    match read_digits(&body, 0, body.len(), EXPONENT_CAP) {
        Some(size) => Some((cs[0] == '-', size)),
        None => None,
    }
}

/// Reads a decimal number: all of its digits, and how many of them are behind the
/// point.
fn read_mantissa(cs: &Vec<char>) -> (r: Option<(Vec<char>, usize)>)
    ensures
        match r {
            Some((ds, f)) => {
                &&& is_decimal(cs@)
                &&& ds@ == before_point(cs@) + after_point(cs@)
                &&& f == after_point(cs@).len()
            },
            None => !is_decimal(cs@),
        },
{
    let dot: usize = find_char(cs, '.');
    let from: usize = if dot < cs.len() {
        dot + 1
    } else {
        dot
    };
    let mut ds: Vec<char> = cut(cs, 0, dot);
    let mut fraction: Vec<char> = cut(cs, from, cs.len());
    proof {
        assert(ds@ =~= before_point(cs@));
        assert(fraction@ =~= after_point(cs@));
        assert(ds@.subrange(0, ds@.len() as int) =~= ds@);
        assert(fraction@.subrange(0, fraction@.len() as int) =~= fraction@);
    }
    if read_digits(&ds, 0, ds.len(), 0).is_none() || read_digits(
        &fraction,
        0,
        fraction.len(),
        0,
    ).is_none() || (ds.len() == 0 && fraction.len() == 0) {
        return None;
    }
    let f: usize = fraction.len();
    ds.append(&mut fraction);
    Some((ds, f))
}

/// The amount of the digits `ds`, `f` of them behind the point, with an exponent.
fn shifted(ds: &Vec<char>, f: usize, negative: bool, size: u128, unit: u64) -> (r: u128)
    requires
        all_digits(ds@),
        size <= EXPONENT_CAP,
        1 <= unit <= 3_600_000_000_000,
    ensures
        r == at_most(
            scaled(digits_value(ds@), signed(negative, size as nat) - f, unit as nat),
            LIMIT as nat,
        ),
{
    let behind: u128 = f as u128;
    if !negative && size >= behind {
        scale_up(ds, size - behind, unit)
    } else if !negative {
        scale_down(ds, behind - size, unit)
    } else if size + behind == 0 {
        scale_up(ds, 0, unit)
    } else {
        scale_down(ds, size + behind, unit)
    }
}

/// Digits in front of digits are digits.
proof fn lemma_all_digits(a: Seq<char>, b: Seq<char>)
    requires
        all_digits(a),
        all_digits(b),
    ensures
        all_digits(a + b),
{
    assert forall|i: int| 0 <= i < (a + b).len() implies is_digit(#[trigger] (a + b)[i]) by {
        if i < a.len() {
            assert((a + b)[i] == a[i]);
        } else {
            assert((a + b)[i] == b[i - a.len()]);
        }
    }
}

/// Reads a number of units of `unit` each, rounded down, but at most [`LIMIT`].
pub fn read_amount(cs: &Vec<char>, unit: u64) -> (r: Option<u128>)
    requires
        1 <= unit <= 3_600_000_000_000,
    ensures
        match r {
            Some(v) => amount_of(cs@, unit as nat) == Some(v as nat) && v <= LIMIT,
            None => amount_of(cs@, unit as nat) is None,
        },
{
    if infinite(cs) {
        return Some(LIMIT);
    }
    let small: usize = find_char(cs, 'e');
    let large: usize = find_char(cs, 'E');
    let mark: usize = if small <= large {
        small
    } else {
        large
    };
    let front: Vec<char> = cut(cs, 0, mark);
    assert(front@ =~= cs@.take(mark as int));
    let ghost mut e: nat = 0;
    let exponent: Option<(bool, u128)> = if mark < cs.len() {
        let behind: Vec<char> = cut(cs, mark + 1, cs.len());
        assert(behind@ =~= cs@.skip(mark + 1));
        proof {
            e = digits_value(unsigned(behind@));
        }
        read_exponent(&behind)
    } else {
        Some((false, 0))
    };
    match (read_mantissa(&front), exponent) {
        (Some((ds, f)), Some((negative, size))) => {
            proof {
                lemma_all_digits(before_point(front@), after_point(front@));
                lemma_digits_bound(ds@);
                assert(ds@.len() == ds.len());
                lemma_exponent_cap(digits_value(ds@), ds@.len(), f as nat, e, unit as nat);
                assert(parts_of(cs@) == Some((digits_value(ds@), signed(negative, e) - f)));
            }
            Some(shifted(&ds, f, negative, size, unit))
        },
        _ => None,
    }
}

/// Digits are a natural number, with or without a plus sign, as far as they fit;
/// nothing else is.
pub proof fn law_naturals(s: Seq<char>)
    ensures
        s.len() > 0 && all_digits(s) && digits_value(s) <= 2147483647 ==> natural_of(s) == Some(
            digits_value(s) as i32,
        ) && natural_of(seq!['+'] + s) == Some(digits_value(s) as i32),
        s.len() > 0 && all_digits(s) && digits_value(s) > 2147483647 ==> natural_of(s) is None,
        s.len() == 0 ==> natural_of(s) is None,
        (exists|i: int| 0 < i < s.len() && !is_digit(#[trigger] s[i])) ==> natural_of(s) is None,
        s.len() > 0 && s[0] != '+' && !is_digit(s[0]) ==> natural_of(s) is None,
{
    let plus = seq!['+'] + s;
    assert(plus.skip(1) =~= s);
    if s.len() > 0 && all_digits(s) {
        assert(is_digit(s[0]));
    }
    if exists|i: int| 0 < i < s.len() && !is_digit(#[trigger] s[i]) {
        let i = choose|i: int| 0 < i < s.len() && !is_digit(#[trigger] s[i]);
        if s[0] == '+' {
            assert(s.skip(1)[i - 1] == s[i]);
        }
    }
}

/// Each digit counts ten times as much as the next.
pub proof fn law_digits_count_by_tens(s: Seq<char>, c: char)
    requires
        is_digit(c),
    ensures
        digits_value(Seq::empty()) == 0,
        digits_value(s.push(c)) == 10 * digits_value(s) + (c as int - '0' as int),
        power_of_ten(0) == 1,
        power_of_ten(s.len() + 1) == 10 * power_of_ten(s.len()),
        LIMIT == i128::MAX,
{
    assert(s.push(c).drop_last() =~= s);
}

/// A whole number of units with an exponent: so many units times, or divided by and
/// rounded down, that power of ten; never more than the limit.
pub proof fn law_exponents_shift(a: Seq<char>, n: Seq<char>, unit: nat, mark: char)
    requires
        all_digits(a),
        a.len() > 0,
        all_digits(n),
        n.len() > 0,
        mark == 'e' || mark == 'E',
    ensures
        amount_of(a, unit) == Some(at_most(digits_value(a) * unit, LIMIT as nat)),
        amount_of(a + seq![mark] + n, unit) == Some(
            at_most(digits_value(a) * unit * power_of_ten(digits_value(n)), LIMIT as nat),
        ),
        amount_of(a + seq![mark, '+'] + n, unit) == Some(
            at_most(digits_value(a) * unit * power_of_ten(digits_value(n)), LIMIT as nat),
        ),
        digits_value(n) > 0 ==> amount_of(a + seq![mark, '-'] + n, unit) == Some(
            at_most(digits_value(a) * unit / power_of_ten(digits_value(n)), LIMIT as nat),
        ),
{
    lemma_mantissa(a);
    assert(is_digit(n[0]));
    lemma_marked(a, mark, n);
    lemma_marked(a, mark, seq!['+'] + n);
    lemma_marked(a, mark, seq!['-'] + n);
    assert(a + seq![mark, '+'] + n =~= a + seq![mark] + (seq!['+'] + n));
    assert(a + seq![mark, '-'] + n =~= a + seq![mark] + (seq!['-'] + n));
    assert((seq!['+'] + n).skip(1) =~= n);
    assert((seq!['-'] + n).skip(1) =~= n);
    assert(power_of_ten(0) == 1);
    assert(digits_value(a) * unit * 1 == digits_value(a) * unit);
    lemma_without(a, 'e');
    lemma_without(a, 'E');
    text_laws::lemma_no_index(a, 'e');
    text_laws::lemma_no_index(a, 'E');
    assert(a.take(a.len() as int) =~= a);
}

proof fn lemma_without(a: Seq<char>, c: char)
    requires
        all_digits(a),
        !is_digit(c),
    ensures
        !a.contains(c),
{
    if a.contains(c) {
        let k = choose|k: int| 0 <= k < a.len() && a[k] == c;
        assert(is_digit(a[k]));
    }
}

/// Digits are a decimal number without a fraction, and spell no word.
proof fn lemma_mantissa(a: Seq<char>)
    requires
        all_digits(a),
        a.len() > 0,
    ensures
        is_decimal(a),
        after_point(a).len() == 0,
        before_point(a) + after_point(a) == a,
        forall|rest: Seq<char>| !is_infinite(#[trigger] (a + rest)),
        !is_infinite(a),
{
    reveal_strlit("inf");
    reveal_strlit("INF");
    reveal_strlit("infinity");
    reveal_strlit("INFINITY");
    lemma_without(a, '.');
    text_laws::lemma_no_index(a, '.');
    assert(before_point(a) =~= a);
    assert(before_point(a) + after_point(a) =~= a);
    assert(is_digit(a[0]));
    assert forall|rest: Seq<char>| !is_infinite(#[trigger] (a + rest)) by {
        assert((a + rest)[0] == a[0]);
    }
}

/// What stands in front of the first mark, and behind it.
proof fn lemma_marked(a: Seq<char>, mark: char, rest: Seq<char>)
    requires
        all_digits(a),
        a.len() > 0,
        mark == 'e' || mark == 'E',
    ensures
        exponent_mark(a + seq![mark] + rest) == a.len(),
        (a + seq![mark] + rest).take(a.len() as int) == a,
        (a + seq![mark] + rest).skip(a.len() as int + 1) == rest,
        !is_infinite(a + seq![mark] + rest),
{
    let s = a + seq![mark] + rest;
    let other = if mark == 'e' {
        'E'
    } else {
        'e'
    };
    lemma_without(a, mark);
    lemma_without(a, other);
    text_laws::lemma_first_index(a, mark, rest);
    instant_laws::lemma_index_at_least(a, seq![mark] + rest, other);
    assert(s =~= a + (seq![mark] + rest));
    assert(s.take(a.len() as int) =~= a);
    assert(s.skip(a.len() as int + 1) =~= rest);
    lemma_mantissa(a);
}

/// A number with a point: its digits in units, as far as they reach behind the
/// point, rounded down; never more than the limit. Infinity is the limit.
pub proof fn law_fractions(a: Seq<char>, b: Seq<char>, unit: nat)
    requires
        all_digits(a),
        all_digits(b),
        a.len() + b.len() > 0,
    ensures
        amount_of(a + seq!['.'] + b, unit) == Some(
            at_most(
                (digits_value(a) * power_of_ten(b.len()) + digits_value(b)) * unit / power_of_ten(
                    b.len(),
                ),
                LIMIT as nat,
            ),
        ),
        amount_of("inf"@, unit) == Some(LIMIT as nat),
        amount_of("infinity"@, unit) == Some(LIMIT as nat),
{
    reveal_strlit("inf");
    reveal_strlit("INF");
    reveal_strlit("infinity");
    reveal_strlit("INFINITY");
    let s = a + seq!['.'] + b;
    lemma_without(a, '.');
    lemma_without(a, 'e');
    lemma_without(b, 'e');
    lemma_without(a, 'E');
    lemma_without(b, 'E');
    assert(!seq!['.'].contains('e') && !seq!['.'].contains('E'));
    text_laws::lemma_lacks(a, seq!['.'], 'e');
    text_laws::lemma_lacks(a + seq!['.'], b, 'e');
    text_laws::lemma_lacks(a, seq!['.'], 'E');
    text_laws::lemma_lacks(a + seq!['.'], b, 'E');
    text_laws::lemma_no_index(s, 'e');
    text_laws::lemma_no_index(s, 'E');
    text_laws::lemma_first_index(a, '.', b);
    assert(s.take(s.len() as int) =~= s);
    assert(before_point(s) =~= a);
    assert(after_point(s) =~= b);
    assert(!is_infinite(s)) by {
        if a.len() > 0 {
            assert(is_digit(a[0]));
            assert(s[0] == a[0]);
        } else {
            assert(s[0] == '.');
        }
    }
    lemma_digits_concat(a, b);
    if b.len() == 0 {
        assert(power_of_ten(0) == 1);
        let d = digits_value(a + b);
        assert(d * unit * 1 == d * unit / 1) by (nonlinear_arith);
    }
}

/// The ten digits are digits and nothing else is; a bound lets through what is
/// below it.
pub proof fn law_digits_and_bounds(c: char, v: nat, cap: nat)
    ensures
        is_digit(c) <==> 0x30 <= c as int <= 0x39,
        v <= cap ==> at_most(v, cap) == v,
        v > cap ==> at_most(v, cap) == cap,
{
}

/// A first index is the length, or the place of the character.
proof fn lemma_indexed(s: Seq<char>, c: char)
    ensures
        0 <= text::first_index(s, c) <= s.len(),
        text::first_index(s, c) < s.len() ==> s[text::first_index(s, c)] == c,
    decreases s.len(),
{
    if s.len() > 0 && s[0] != c {
        lemma_indexed(s.drop_first(), c);
    }
}

/// A number that is not infinite is made of digits, points, signs and the mark of
/// an exponent, and it has a digit in front of that mark.
pub proof fn law_what_is_no_amount(s: Seq<char>, unit: nat)
    requires
        !is_infinite(s),
    ensures
        (exists|i: int|
            0 <= i < s.len() && !is_digit(#[trigger] s[i]) && s[i] != '.' && s[i] != 'e' && s[i]
                != 'E' && s[i] != '+' && s[i] != '-') ==> amount_of(s, unit) is None,
        (forall|i: int| 0 <= i < s.len() ==> !is_digit(#[trigger] s[i])) ==> amount_of(
            s,
            unit,
        ) is None,
        s.len() > 0 && (s[0] == '+' || s[0] == '-') ==> amount_of(s, unit) is None,
        s.len() > 0 && !s.drop_last().contains('e') && !s.drop_last().contains('E') && (s.last()
            == 'e' || s.last() == 'E') ==> amount_of(s, unit) is None,
{
    let mark = exponent_mark(s);
    let mantissa = s.take(mark);
    let dot = text::first_index(mantissa, '.');
    lemma_indexed(s, 'e');
    lemma_indexed(s, 'E');
    lemma_indexed(mantissa, '.');
    if amount_of(s, unit) is Some {
        let front = before_point(mantissa);
        let back = after_point(mantissa);
        assert forall|i: int| 0 <= i < s.len() implies is_digit(#[trigger] s[i]) || s[i] == '.'
            || s[i] == 'e' || s[i] == 'E' || s[i] == '+' || s[i] == '-' by {
            if i < mark {
                assert(mantissa[i] == s[i]);
                if i < dot {
                    assert(front[i] == s[i]);
                } else if i > dot {
                    assert(back[i - dot - 1] == s[i]);
                }
            } else if i > mark {
                let tail = s.skip(mark + 1);
                assert(tail[i - mark - 1] == s[i]);
                if unsigned(tail) != tail && i > mark + 1 {
                    assert(unsigned(tail)[i - mark - 2] == s[i]);
                }
            }
        }
        if front.len() > 0 {
            assert(front[0] == s[0]);
            assert(is_digit(s[0]));
        } else {
            assert(back[0] == mantissa[dot + 1]);
            assert(is_digit(s[dot + 1]));
            assert(dot == 0);
            assert(mantissa[0] == s[0]);
        }
        if s.len() > 0 && !s.drop_last().contains('e') && !s.drop_last().contains('E') && (s.last()
            == 'e' || s.last() == 'E') {
            if mark < s.len() - 1 {
                assert(s.drop_last()[mark] == s[mark]);
            }
            assert(mark >= s.len() - 1);
            instant_laws::lemma_index_at_least(s.drop_last(), seq![s.last()], s.last());
            if mark == s.len() {
                lemma_last_found(s);
            }
            assert(s.skip(mark + 1).len() == 0);
        }
    }
}

/// A character at the end is found.
proof fn lemma_last_found(s: Seq<char>)
    requires
        s.len() > 0,
    ensures
        text::first_index(s, s.last()) < s.len(),
    decreases s.len(),
{
    if s.len() > 1 {
        assert(s.drop_first().last() == s.last());
        lemma_last_found(s.drop_first());
    }
}

/// Infinity is three letters or eight, and what is no number is three, with or
/// without a sign; small letters or large.
pub proof fn law_words_for_numbers(s: Seq<char>, unit: nat)
    ensures
        s.len() == 3 && (s[0] == 'i' || s[0] == 'I') && (s[1] == 'n' || s[1] == 'N') && (s[2] == 'f'
            || s[2] == 'F') ==> amount_of(s, unit) == Some(i128::MAX as nat),
        s.len() == 8 && (s[0] == 'i' || s[0] == 'I') && (s[1] == 'n' || s[1] == 'N') && (s[2] == 'f'
            || s[2] == 'F') && (s[3] == 'i' || s[3] == 'I') && (s[4] == 'n' || s[4] == 'N') && (s[5]
            == 'i' || s[5] == 'I') && (s[6] == 't' || s[6] == 'T') && (s[7] == 'y' || s[7] == 'Y')
            ==> amount_of(s, unit) == Some(i128::MAX as nat),
        s.len() != 3 && s.len() != 8 ==> !is_infinite(s),
        s.len() == 3 && (s[0] == 'n' || s[0] == 'N') && (s[1] == 'a' || s[1] == 'A') && (s[2] == 'n'
            || s[2] == 'N') ==> is_nan(s) && is_nan(seq!['+'] + s) && is_nan(seq!['-'] + s)
            && amount_of(s, unit) is None,
        is_nan(s) ==> s.len() == 3 || s.len() == 4 && (s[0] == '+' || s[0] == '-'),
        is_nan(s) ==> (s.last() == 'n' || s.last() == 'N'),
{
    reveal_strlit("inf");
    reveal_strlit("INF");
    reveal_strlit("infinity");
    reveal_strlit("INFINITY");
    reveal_strlit("nan");
    reveal_strlit("NAN");
    assert((seq!['+'] + s).skip(1) =~= s);
    assert((seq!['-'] + s).skip(1) =~= s);
    if s.len() == 3 && (s[0] == 'n' || s[0] == 'N') {
        assert(!is_infinite(s));
        law_what_is_no_amount(s, unit);
    }
    if is_nan(s) {
        assert(unsigned(s).last() == unsigned(s)[2]);
    }
}

} // verus!
