use vstd::prelude::*;
use crate::text::{trim_of, trim_str};

verus! {

/// Number of fractional decimal digits kept in a scaled price.
pub const FRAC_DIGITS: usize = 8;

/// A price is stored as its value times this factor.
pub const PRICE_SCALE: i64 = 100_000_000;

const ASCII_DOT: u8 = 46;
const ASCII_ZERO: u8 = 48;
const ASCII_FIVE: u8 = 53;
const ASCII_NINE: u8 = 57;

/// Why a price string was rejected.
#[derive(Debug, Clone, Copy, PartialEq, Eq, Structural)]
pub enum PriceError {
    /// Nothing but whitespace.
    Empty,
    /// A character that is neither a decimal digit nor the decimal point.
    InvalidCharacter,
    /// More than one decimal point.
    MultipleDecimalPoints,
    /// The scaled value does not fit in an `i64`.
    Overflow,
}

pub open spec fn is_digit(c: char) -> bool {
    '0' <= c && c <= '9'
}

pub open spec fn digit_of(c: char) -> int {
    (c as u32) as int - ('0' as u32) as int
}

pub open spec fn is_price_char(c: char) -> bool {
    is_digit(c) || c == '.'
}

pub open spec fn all_digits(s: Seq<char>) -> bool {
    forall|i: int| 0 <= i < s.len() ==> is_digit(#[trigger] s[i])
}

/// The number that a string of decimal digits denotes.
pub open spec fn digits_value(s: Seq<char>) -> int
    decreases s.len(),
{
    if s.len() == 0 {
        0
    } else {
        digits_value(s.drop_last()) * 10 + digit_of(s.last())
    }
}

pub open spec fn pow10(n: nat) -> int
    decreases n,
{
    if n == 0 {
        1
    } else {
        10 * pow10((n - 1) as nat)
    }
}

pub open spec fn has_invalid_char(s: Seq<char>) -> bool {
    exists|i: int| 0 <= i < s.len() && !is_price_char(#[trigger] s[i])
}

pub open spec fn has_dot(s: Seq<char>) -> bool {
    exists|i: int| 0 <= i < s.len() && #[trigger] s[i] == '.'
}

pub open spec fn has_two_dots(s: Seq<char>) -> bool {
    exists|i: int, j: int| 0 <= i < j < s.len() && #[trigger] s[i] == '.' && #[trigger] s[j] == '.'
}

/// Position of the decimal point, or the whole length when there is none
/// (meaningful when there is at most one point).
pub open spec fn int_len(s: Seq<char>) -> int {
    if has_dot(s) {
        choose|i: int| 0 <= i < s.len() && s[i] == '.'
    } else {
        s.len() as int
    }
}

/// The digits before the decimal point.
pub open spec fn int_part(s: Seq<char>) -> Seq<char> {
    s.subrange(0, int_len(s))
}

/// The digits after the decimal point (none without a point).
pub open spec fn frac_part(s: Seq<char>) -> Seq<char> {
    if has_dot(s) {
        s.subrange(int_len(s) + 1, s.len() as int)
    } else {
        Seq::empty()
    }
}

/// How many fractional digits contribute to the scaled value.
pub open spec fn kept_frac_len(f: Seq<char>) -> nat {
    if f.len() < 8 {
        f.len()
    } else {
        8
    }
}

/// The first eight fractional digits, in units of 10^-8.
pub open spec fn frac_units(f: Seq<char>) -> int {
    digits_value(f.subrange(0, kept_frac_len(f) as int)) * pow10((8 - kept_frac_len(f)) as nat)
}

/// Half-up rounding: a ninth fractional digit of 5 or more adds one unit.
pub open spec fn rounds_up(f: Seq<char>) -> bool {
    f.len() > 8 && digit_of(f[8]) >= 5
}

/// The value of a well-formed price string in units of 10^-8, rounded half up.
pub open spec fn scaled_value(s: Seq<char>) -> int {
    digits_value(int_part(s)) * pow10(8) + frac_units(frac_part(s)) + if rounds_up(frac_part(s)) {
        1int
    } else {
        0int
    }
}

/// The outcome of parsing an already trimmed price string.
pub open spec fn parse_spec(s: Seq<char>) -> Result<i64, PriceError> {
    if s.len() == 0 {
        Err(PriceError::Empty)
    } else if has_invalid_char(s) {
        Err(PriceError::InvalidCharacter)
    } else if has_two_dots(s) {
        Err(PriceError::MultipleDecimalPoints)
    } else if scaled_value(s) > i64::MAX {
        Err(PriceError::Overflow)
    } else {
        Ok(scaled_value(s) as i64)
    }
}

pub proof fn lemma_pow10_positive(n: nat)
    ensures
        pow10(n) >= 1,
    decreases n,
{
    if n > 0 {
        lemma_pow10_positive((n - 1) as nat);
    }
}

pub proof fn lemma_pow10_monotone(a: nat, b: nat)
    requires
        a <= b,
    ensures
        pow10(a) <= pow10(b),
    decreases b,
{
    lemma_pow10_positive(b);
    if a < b {
        lemma_pow10_monotone(a, (b - 1) as nat);
        lemma_pow10_positive((b - 1) as nat);
    }
}

pub proof fn lemma_digits_value_bounds(s: Seq<char>)
    requires
        all_digits(s),
    ensures
        0 <= digits_value(s) < pow10(s.len()),
    decreases s.len(),
{
    if s.len() > 0 {
        let t = s.drop_last();
        assert(all_digits(t)) by {
            assert forall|i: int| 0 <= i < t.len() implies is_digit(#[trigger] t[i]) by {
                assert(t[i] == s[i]);
            }
        }
        lemma_digits_value_bounds(t);
        let a = digits_value(t);
        let p = pow10(t.len());
        let d = digit_of(s.last());
        assert(is_digit(s[s.len() - 1]));
        assert(0 <= d <= 9);
        assert(a * 10 + d < 10 * p) by (nonlinear_arith)
            requires
                0 <= a < p,
                0 <= d <= 9,
        ;
        assert(pow10(s.len()) == 10 * p);
    }
}

pub proof fn lemma_digits_value_prefix_monotone(s: Seq<char>, i: int, j: int)
    requires
        all_digits(s),
        0 <= i <= j <= s.len(),
    ensures
        digits_value(s.subrange(0, i)) <= digits_value(s.subrange(0, j)),
    decreases j - i,
{
    if i < j {
        lemma_digits_value_prefix_monotone(s, i, j - 1);
        let t = s.subrange(0, j);
        assert(t.drop_last() =~= s.subrange(0, j - 1));
        let u = s.subrange(0, j - 1);
        assert(all_digits(u)) by {
            assert forall|k: int| 0 <= k < u.len() implies is_digit(#[trigger] u[k]) by {
                assert(u[k] == s[k]);
            }
        }
        lemma_digits_value_bounds(u);
        assert(is_digit(s[j - 1]));
        assert(t.last() == s[j - 1]);
    }
}


pub proof fn lemma_pow10_split(a: nat, b: nat)
    ensures
        pow10(a + b) == pow10(a) * pow10(b),
    decreases b,
{
    if b > 0 {
        lemma_pow10_split(a, (b - 1) as nat);
        assert(pow10(a + b) == 10 * pow10((a + b - 1) as nat));
        assert(pow10(a) * (10 * pow10((b - 1) as nat)) == 10 * (pow10(a) * pow10((b - 1) as nat)))
            by (nonlinear_arith);
    }
}

proof fn lemma_ascii_byte(c: char, b: u8)
    requires
        b as nat == c as nat,
    ensures
        (b == ASCII_DOT) <==> (c == '.'),
        (ASCII_ZERO <= b && b <= ASCII_NINE) <==> is_digit(c),
        is_digit(c) ==> digit_of(c) == b - ASCII_ZERO,
        is_digit(c) ==> (digit_of(c) >= 5 <==> b >= ASCII_FIVE),
{
}

/// The scaled value of a well-formed string is at least the value of any
/// prefix of its integer part.
proof fn lemma_scaled_value_dominates(s: Seq<char>, k: int)
    requires
        !has_invalid_char(s),
        !has_two_dots(s),
        0 <= k <= int_len(s) <= s.len(),
        forall|i: int| 0 <= i < int_len(s) ==> s[i] != '.',
    ensures
        scaled_value(s) >= digits_value(s.subrange(0, k)) * pow10(8),
        scaled_value(s) >= digits_value(s.subrange(0, k)),
{
    let ip = int_part(s);
    assert(all_digits(ip)) by {
        assert forall|i: int| 0 <= i < ip.len() implies is_digit(#[trigger] ip[i]) by {
            assert(ip[i] == s[i]);
            assert(is_price_char(s[i]));
        }
    }
    lemma_digits_value_prefix_monotone(ip, k, ip.len() as int);
    assert(ip.subrange(0, k) =~= s.subrange(0, k));
    assert(ip.subrange(0, ip.len() as int) =~= ip);
    let f = frac_part(s);
    assert(all_digits(f)) by {
        assert forall|i: int| 0 <= i < f.len() implies is_digit(#[trigger] f[i]) by {
            assert(f[i] == s[int_len(s) + 1 + i]);
            assert(is_price_char(s[int_len(s) + 1 + i]));
            if f[i] == '.' {
                assert(s[int_len(s)] == '.');
            }
        }
    }
    let kf = f.subrange(0, kept_frac_len(f) as int);
    assert(all_digits(kf)) by {
        assert forall|i: int| 0 <= i < kf.len() implies is_digit(#[trigger] kf[i]) by {
            assert(kf[i] == f[i]);
        }
    }
    lemma_digits_value_bounds(kf);
    lemma_digits_value_bounds(ip);
    assert(all_digits(s.subrange(0, k)));
    lemma_digits_value_bounds(s.subrange(0, k));
    lemma_pow10_positive((8 - kept_frac_len(f)) as nat);
    lemma_pow10_positive(8);
    let a = digits_value(ip);
    let a0 = digits_value(s.subrange(0, k));
    let q = digits_value(kf);
    let w = pow10((8 - kept_frac_len(f)) as nat);
    assert(a * pow10(8) >= a0 * pow10(8) && a0 * pow10(8) >= a0 && q * w >= 0) by (nonlinear_arith)
        requires
            a >= a0,
            a0 >= 0,
            q >= 0,
            w >= 1,
            pow10(8) >= 1,
    ;
}

/// A well-formed decimal string: digits with at most one decimal point.
pub open spec fn is_plain_decimal(s: Seq<char>) -> bool {
    s.len() > 0 && !has_invalid_char(s) && !has_two_dots(s)
}

proof fn lemma_int_len_is_dot(s: Seq<char>)
    requires
        is_plain_decimal(s),
    ensures
        0 <= int_len(s) <= s.len(),
        forall|i: int| 0 <= i < int_len(s) ==> #[trigger] s[i] != '.',
        has_dot(s) ==> int_len(s) < s.len() && s[int_len(s)] == '.',
        has_dot(s) ==> forall|i: int| int_len(s) < i < s.len() ==> #[trigger] s[i] != '.',
{
    if has_dot(s) {
        let c = choose|c: int| 0 <= c < s.len() && s[c] == '.';
        assert forall|i: int| 0 <= i < s.len() && i != c implies #[trigger] s[i] != '.' by {
            if s[i] == '.' {
                if i < c {
                    assert(s[i] == '.' && s[c] == '.');
                } else {
                    assert(s[c] == '.' && s[i] == '.');
                }
            }
        }
    } else {
        assert forall|i: int| 0 <= i < s.len() implies #[trigger] s[i] != '.' by {
            if s[i] == '.' {
                assert(has_dot(s));
            }
        }
    }
}

proof fn lemma_parts_are_digits(s: Seq<char>)
    requires
        is_plain_decimal(s),
    ensures
        all_digits(int_part(s)),
        all_digits(frac_part(s)),
{
    lemma_int_len_is_dot(s);
    let ip = int_part(s);
    assert forall|i: int| 0 <= i < ip.len() implies is_digit(#[trigger] ip[i]) by {
        assert(ip[i] == s[i]);
        assert(is_price_char(s[i]));
    }
    let f = frac_part(s);
    assert forall|i: int| 0 <= i < f.len() implies is_digit(#[trigger] f[i]) by {
        assert(f[i] == s[int_len(s) + 1 + i]);
        assert(is_price_char(s[int_len(s) + 1 + i]));
    }
}

/// With at most eight fractional digits nothing is rounded: the scaled result
/// times 10^L, for L fractional digits, is exactly the decimal's numerator
/// (its digits read as one integer) times 10^8, and it is never negative.
/// Parsing succeeds exactly when that value fits in an `i64`.
pub proof fn lemma_parse_exact_up_to_eight_digits(s: Seq<char>)
    requires
        is_plain_decimal(s),
        frac_part(s).len() <= 8,
    ensures
        (parse_spec(s) is Ok) <==> scaled_value(s) <= i64::MAX,
        parse_spec(s) is Ok ==> parse_spec(s)->Ok_0 >= 0,
        parse_spec(s) is Ok ==> parse_spec(s)->Ok_0 * pow10(frac_part(s).len()) == (digits_value(
            int_part(s),
        ) * pow10(frac_part(s).len()) + digits_value(frac_part(s))) * pow10(8),
{
    let f = frac_part(s);
    let l = f.len();
    lemma_parts_are_digits(s);
    assert(f.subrange(0, l as int) =~= f);
    assert(!rounds_up(f));
    lemma_digits_value_bounds(int_part(s));
    lemma_digits_value_bounds(f);
    lemma_pow10_positive((8 - l) as nat);
    lemma_pow10_positive(l);
    lemma_pow10_positive(8);
    lemma_pow10_split((8 - l) as nat, l);
    assert((8 - l) as nat + l == 8);
    let a = digits_value(int_part(s));
    let q = digits_value(f);
    let v = scaled_value(s);
    assert(v == a * pow10(8) + q * pow10((8 - l) as nat));
    assert(v >= 0) by (nonlinear_arith)
        requires
            v == a * pow10(8) + q * pow10((8 - l) as nat),
            a >= 0,
            q >= 0,
            pow10(8) >= 1,
            pow10((8 - l) as nat) >= 1,
    ;
    assert(v * pow10(l) == (a * pow10(l) + q) * pow10(8)) by (nonlinear_arith)
        requires
            v == a * pow10(8) + q * pow10((8 - l) as nat),
            pow10(8) == pow10((8 - l) as nat) * pow10(l),
    ;
}

/// A ninth fractional digit rounds half up: the result is that of the string
/// cut after its eighth fractional digit, plus one when the ninth digit is
/// 5 or more.
pub proof fn lemma_ninth_digit_rounds_half_up(s: Seq<char>)
    requires
        is_plain_decimal(s),
        frac_part(s).len() >= 9,
    ensures
        scaled_value(s) == scaled_value(s.subrange(0, int_len(s) + 9)) + if digit_of(
            frac_part(s)[8],
        ) >= 5 {
            1int
        } else {
            0int
        },
        is_plain_decimal(s.subrange(0, int_len(s) + 9)),
        parse_spec(s) is Ok ==> parse_spec(s.subrange(0, int_len(s) + 9)) == Ok::<i64, PriceError>(
            (parse_spec(s)->Ok_0 - if digit_of(frac_part(s)[8]) >= 5 {
                1int
            } else {
                0int
            }) as i64,
        ),
        parse_spec(s.subrange(0, int_len(s) + 9)) is Ok && parse_spec(
            s.subrange(0, int_len(s) + 9),
        )->Ok_0 + 1 <= i64::MAX ==> parse_spec(s) is Ok,
{
    lemma_int_len_is_dot(s);
    lemma_parts_are_digits(s);
    let p = int_len(s);
    let t = s.subrange(0, p + 9);
    assert(has_dot(s)) by {
        if !has_dot(s) {
            assert(frac_part(s).len() == 0);
        }
    }
    assert(t[p] == '.');
    assert(has_dot(t));
    assert(!has_invalid_char(t)) by {
        if has_invalid_char(t) {
            let i = choose|i: int| 0 <= i < t.len() && !is_price_char(#[trigger] t[i]);
            assert(t[i] == s[i]);
        }
    }
    assert(!has_two_dots(t)) by {
        if has_two_dots(t) {
            let (i, j) = choose|i: int, j: int|
                0 <= i < j < t.len() && #[trigger] t[i] == '.' && #[trigger] t[j] == '.';
            assert(t[i] == s[i] && t[j] == s[j]);
        }
    }
    assert(is_plain_decimal(t));
    lemma_int_len_is_dot(t);
    assert(int_len(t) == p) by {
        if int_len(t) != p {
            let c = int_len(t);
            if c < p {
                assert(t[c] == s[c]);
            } else {
                assert(t[p] == '.');
            }
        }
    }
    let f = frac_part(s);
    let g = frac_part(t);
    assert(g =~= f.subrange(0, 8));
    assert(int_part(t) =~= int_part(s));
    assert(g.subrange(0, 8) =~= f.subrange(0, 8));
    assert(kept_frac_len(g) == 8);
    assert(kept_frac_len(f) == 8);
    assert(!rounds_up(g));
    lemma_scaled_value_dominates(t, 0);
    assert(t.subrange(0, 0) =~= Seq::<char>::empty());
    assert(scaled_value(t) >= 0);
}

proof fn lemma_digits_value_split(s: Seq<char>, k: int)
    requires
        all_digits(s),
        0 <= k <= s.len(),
    ensures
        digits_value(s) == digits_value(s.take(k)) * pow10((s.len() - k) as nat) + digits_value(
            s.skip(k),
        ),
    decreases s.len(),
{
    if k == s.len() {
        assert(s.take(k) =~= s);
        assert(s.skip(k) =~= Seq::<char>::empty());
        assert(pow10(0) == 1);
    } else {
        let t = s.drop_last();
        assert(all_digits(t)) by {
            assert forall|i: int| 0 <= i < t.len() implies is_digit(#[trigger] t[i]) by {
                assert(t[i] == s[i]);
            }
        }
        lemma_digits_value_split(t, k);
        assert(t.take(k) =~= s.take(k));
        assert(s.skip(k).drop_last() =~= t.skip(k));
        assert(s.skip(k).last() == s.last());
        let a = digits_value(s.take(k));
        let p = pow10((t.len() - k) as nat);
        let b = digits_value(t.skip(k));
        let d = digit_of(s.last());
        assert(pow10((s.len() - k) as nat) == 10 * p);
        assert((a * p + b) * 10 + d == a * (10 * p) + (b * 10 + d)) by (nonlinear_arith);
    }
}

/// The digits of a decimal string read as one integer: its value is this
/// numerator divided by 10^L, for L fractional digits.
pub open spec fn decimal_numerator(s: Seq<char>) -> int {
    digits_value(int_part(s)) * pow10(frac_part(s).len()) + digits_value(frac_part(s))
}

/// Parsing rounds half up at 10^-8: the scaled result is the greatest integer
/// not above value * 10^8 + 1/2, where value = numerator / 10^L; parsing
/// succeeds exactly when that fits in an `i64`, and then returns it.
pub proof fn lemma_parse_rounds_half_up(s: Seq<char>)
    requires
        is_plain_decimal(s),
    ensures
        2 * pow10(frac_part(s).len()) * scaled_value(s) <= 2 * decimal_numerator(s) * pow10(8)
            + pow10(frac_part(s).len()),
        2 * decimal_numerator(s) * pow10(8) + pow10(frac_part(s).len()) < 2 * pow10(
            frac_part(s).len(),
        ) * (scaled_value(s) + 1),
        (parse_spec(s) is Ok) <==> scaled_value(s) <= i64::MAX,
        parse_spec(s) is Ok ==> parse_spec(s)->Ok_0 == scaled_value(s),
{
    lemma_parts_are_digits(s);
    lemma_scaled_value_dominates(s, 0);
    lemma_int_len_is_dot(s);
    assert(s.subrange(0, 0) =~= Seq::<char>::empty());
    let f = frac_part(s);
    let l = f.len();
    let a = digits_value(int_part(s));
    let n = decimal_numerator(s);
    let big = pow10(l);
    let t = pow10(8);
    let v = scaled_value(s);
    lemma_pow10_positive(l);
    lemma_pow10_positive(8);
    if l <= 8 {
        lemma_parse_exact_up_to_eight_digits(s);
        assert(f.subrange(0, l as int) =~= f);
        lemma_pow10_split((8 - l) as nat, l);
        assert((8 - l) as nat + l == 8);
        assert(v == a * t + digits_value(f) * pow10((8 - l) as nat));
        assert(v * big == n * t) by (nonlinear_arith)
            requires
                v == a * t + digits_value(f) * pow10((8 - l) as nat),
                t == pow10((8 - l) as nat) * big,
                n == a * big + digits_value(f),
        ;
        assert(2 * big * v <= 2 * n * t + big && 2 * n * t + big < 2 * big * (v + 1))
            by (nonlinear_arith)
            requires
                v * big == n * t,
                big >= 1,
        ;
    } else {
        let f8 = digits_value(f.take(8));
        let rr = digits_value(f.skip(8));
        lemma_digits_value_split(f, 8);
        let g = f.skip(8);
        assert(all_digits(g)) by {
            assert forall|i: int| 0 <= i < g.len() implies is_digit(#[trigger] g[i]) by {
                assert(g[i] == f[i + 8]);
            }
        }
        lemma_digits_value_split(g, 1);
        let h = g.skip(1);
        assert(h =~= f.skip(9));
        assert(all_digits(h)) by {
            assert forall|i: int| 0 <= i < h.len() implies is_digit(#[trigger] h[i]) by {
                assert(h[i] == g[i + 1]);
            }
        }
        lemma_digits_value_bounds(h);
        let one = g.take(1);
        assert(one.drop_last() =~= Seq::<char>::empty());
        assert(one.last() == f[8]);
        let d9 = digit_of(f[8]);
        assert(is_digit(f[8]));
        assert(digits_value(one) == d9);
        let rest = digits_value(h);
        let pp = pow10((l - 9) as nat);
        let q = pow10((l - 8) as nat);
        assert(q == 10 * pp);
        lemma_pow10_positive((l - 9) as nat);
        assert(h.len() == l - 9);
        assert(rr == d9 * pp + rest);
        lemma_pow10_split(8, (l - 8) as nat);
        assert(8 + (l - 8) as nat == l);
        assert(big == t * q);
        assert(f.take(8) =~= f.subrange(0, 8));
        assert(kept_frac_len(f) == 8);
        assert(pow10(0) == 1);
        let r: int = if d9 >= 5 {
            1
        } else {
            0
        };
        assert(v == a * t + f8 + r);
        assert(n == a * big + f8 * q + rr);
        let e = 2 * rr + q - 2 * q * r;
        assert(2 * n * t + big - 2 * big * v == t * e) by (nonlinear_arith)
            requires
                big == t * q,
                v == a * t + f8 + r,
                n == a * big + f8 * q + rr,
                e == 2 * rr + q - 2 * q * r,
        ;
        if d9 >= 5 {
            assert(d9 * pp >= 5 * pp) by (nonlinear_arith)
                requires
                    d9 >= 5,
                    pp >= 1,
            ;
            assert(d9 * pp <= 9 * pp) by (nonlinear_arith)
                requires
                    d9 <= 9,
                    pp >= 1,
            ;
        } else {
            assert(d9 * pp <= 4 * pp) by (nonlinear_arith)
                requires
                    d9 <= 4,
                    pp >= 1,
            ;
            assert(d9 * pp >= 0) by (nonlinear_arith)
                requires
                    d9 >= 0,
                    pp >= 1,
            ;
        }
        assert(0 <= e < 2 * q);
        assert(0 <= t * e < 2 * big) by (nonlinear_arith)
            requires
                0 <= e < 2 * q,
                big == t * q,
                t >= 1,
        ;
    }
    assert(2 * big * (v + 1) == 2 * big * v + 2 * big) by (nonlinear_arith);
}

/// Parses a price string that carries no surrounding whitespace into its
/// value times 10^8, rounded half up at the ninth fractional digit.
pub fn parse_scaled_decimal(t: &str) -> (r: Result<i64, PriceError>)
    ensures
        r == parse_spec(t@),
{
    let ghost s = t@;
    reveal_with_fuel(pow10, 9);
    if t.is_empty() {
        return Err(PriceError::Empty);
    }
    if !t.is_ascii() {
        proof {
            let i = choose|i: int| 0 <= i < s.len() && !('\0' <= #[trigger] s[i] <= '\u{7f}');
            assert(!is_price_char(s[i]));
        }
        return Err(PriceError::InvalidCharacter);
    }
    let b = t.as_bytes();
    proof {
        vstd::utf8::is_ascii_chars_encode_utf8(s);
        vstd::utf8::is_ascii_chars_nat_bound(s);
        assert forall|k: int| 0 <= k < s.len() implies (#[trigger] b@[k]) as nat == s[k] as nat by {
            assert(b@[k] == s[k] as u8);
            assert((s[k] as nat) < 128);
        }
    }
    let n = b.len();
    assert(n == s.len());
    let mut i: usize = 0;
    while i < n
        invariant
            n == s.len(),
            s == t@,
            b@.len() == n,
            forall|k: int| 0 <= k < n ==> (#[trigger] b@[k]) as nat == s[k] as nat,
            forall|k: int| 0 <= k < i ==> is_price_char(#[trigger] s[k]),
        decreases n - i,
    {
        let c = b[i];
        proof {
            lemma_ascii_byte(s[i as int], c);
        }
        if !(c == ASCII_DOT || (ASCII_ZERO <= c && c <= ASCII_NINE)) {
            assert(!is_price_char(s[i as int]));
            return Err(PriceError::InvalidCharacter);
        }
        i += 1;
    }
    assert(!has_invalid_char(s));
    // Locate the decimal point and reject a second one.
    let mut p: usize = 0;
    while p < n && b[p] != ASCII_DOT
        invariant
            n == s.len(),
            s == t@,
            b@.len() == n,
            p <= n,
            forall|k: int| 0 <= k < n ==> (#[trigger] b@[k]) as nat == s[k] as nat,
            forall|k: int| 0 <= k < p ==> #[trigger] s[k] != '.',
        decreases n - p,
    {
        proof {
            lemma_ascii_byte(s[p as int], b@[p as int]);
        }
        p += 1;
    }
    if p < n {
        proof {
            lemma_ascii_byte(s[p as int], b@[p as int]);
        }
        assert(s[p as int] == '.');
        let mut q: usize = p + 1;
        while q < n
            invariant
                n == s.len(),
                s == t@,
            s == t@,
                b@.len() == n,
                p < q <= n,
                !has_invalid_char(s),
                s[p as int] == '.',
                    forall|k: int| 0 <= k < n ==> (#[trigger] b@[k]) as nat == s[k] as nat,
                forall|k: int| p < k < q ==> #[trigger] s[k] != '.',
            decreases n - q,
        {
            proof {
                lemma_ascii_byte(s[q as int], b@[q as int]);
            }
            if b[q] == ASCII_DOT {
                assert(s[p as int] == '.' && s[q as int] == '.');
                return Err(PriceError::MultipleDecimalPoints);
            }
            q += 1;
        }
    }
    assert(!has_two_dots(s));
    assert(int_len(s) == p) by {
        if p < n {
            assert(has_dot(s));
            let c = choose|c: int| 0 <= c < s.len() && s[c] == '.';
            assert(c == p);
        } else {
            assert(!has_dot(s));
        }
    }
    assert(all_digits(s.subrange(0, p as int)));
    // Integer part.
    let mut v: i64 = 0;
    let mut k: usize = 0;
    while k < p
        invariant
            n == s.len(),
            s == t@,
            b@.len() == n,
            k <= p <= n,
            int_len(s) == p,
            forall|k: int| 0 <= k < p ==> #[trigger] s[k] != '.',
            !has_invalid_char(s),
            !has_two_dots(s),
            forall|k: int| 0 <= k < n ==> (#[trigger] b@[k]) as nat == s[k] as nat,
            v == digits_value(s.subrange(0, k as int)),
            v >= 0,
        decreases p - k,
    {
        assert(is_price_char(s[k as int]));
        assert(s[k as int] != '.');
        proof {
            lemma_ascii_byte(s[k as int], b@[k as int]);
        }
        let d = (b[k] - ASCII_ZERO) as i64;
        assert(s.subrange(0, k + 1).drop_last() =~= s.subrange(0, k as int));
        assert(d == digit_of(s[k as int]));
        let grown = v.checked_mul(10);
        let next = match grown {
            Some(x) => x.checked_add(d),
            None => None,
        };
        match next {
            Some(x) => {
                v = x;
            },
            None => {
                proof {
                    assert(s.subrange(0, k + 1).last() == s[k as int]);
                    assert(digits_value(s.subrange(0, k + 1)) == v * 10 + d);
                    assert(v * 10 + d > i64::MAX);
                    lemma_scaled_value_dominates(s, k as int + 1);
                    assert(scaled_value(s) > i64::MAX);
                }
                return Err(PriceError::Overflow);
            },
        }
        k += 1;
    }
    assert(s.subrange(0, p as int) == int_part(s));
    proof {
        reveal_with_fuel(pow10, 9);
    }
    let scaled_int = match v.checked_mul(PRICE_SCALE) {
        Some(x) => x,
        None => {
            proof {
                assert(k == p);
                assert(v * 100_000_000 > i64::MAX);
                lemma_scaled_value_dominates(s, p as int);
                assert(scaled_value(s) > i64::MAX);
            }
            return Err(PriceError::Overflow);
        },
    };
    if p == n {
        assert(!has_dot(s)) by {
            if has_dot(s) {
                let c = choose|c: int| 0 <= c < s.len() && s[c] == '.';
                assert(int_len(s) < n);
            }
        }
        assert(frac_part(s) =~= Seq::<char>::empty());
        assert(frac_units(frac_part(s)) == 0) by {
            let e = frac_part(s);
            assert(kept_frac_len(e) == 0);
            assert(e.subrange(0, 0) =~= Seq::<char>::empty());
            assert(digits_value(e.subrange(0, 0)) == 0);
            let w = pow10((8 - kept_frac_len(e)) as nat);
            assert(frac_units(e) == digits_value(e.subrange(0, 0)) * w);
            assert(0 * w == 0) by (nonlinear_arith);
        }
        return Ok(scaled_int);
    }
    // Fractional part: the first eight digits, then the rounding digit.
    let start = p + 1;
    let ghost f = s.subrange(start as int, n as int);
    assert(f == frac_part(s));
    assert(all_digits(f)) by {
        assert forall|j: int| 0 <= j < f.len() implies is_digit(#[trigger] f[j]) by {
            assert(f[j] == s[start + j]);
            assert(is_price_char(s[start + j]));
        }
    }
    let flen = n - start;
    let m: usize = if flen < FRAC_DIGITS { flen } else { FRAC_DIGITS };
    assert(m == kept_frac_len(f));
    let mut units: i64 = 0;
    let mut j: usize = 0;
    while j < m
        invariant
            n == s.len(),
            s == t@,
            b@.len() == n,
            start + flen == n,
            f == s.subrange(start as int, n as int),
            all_digits(f),
            j <= m <= 8,
            m <= flen,
            forall|k: int| 0 <= k < n ==> (#[trigger] b@[k]) as nat == s[k] as nat,
            units == digits_value(f.subrange(0, j as int)),
            pow10(8) == 100_000_000,
        decreases m - j,
    {
        assert(f[j as int] == s[start + j]);
        assert(is_digit(f[j as int]));
        proof {
            lemma_ascii_byte(s[start + j], b@[start + j]);
        }
        let d = (b[start + j] - ASCII_ZERO) as i64;
        assert(d == digit_of(f[j as int]));
        assert(f.subrange(0, j + 1).drop_last() =~= f.subrange(0, j as int));
        proof {
            lemma_digits_value_bounds(f.subrange(0, j as int));
            lemma_pow10_monotone(j as nat, 8);
        }
        units = units * 10 + d;
        j += 1;
    }
    assert(j == m);
    let ghost kept = digits_value(f.subrange(0, m as int));
    assert(pow10(0) == 1);
    assert(units == kept * pow10(0));
    proof {
        lemma_digits_value_bounds(f.subrange(0, m as int));
    }
    let mut e: usize = m;
    while e < FRAC_DIGITS
        invariant
            m <= e <= 8,
            0 <= kept < pow10(m as nat),
            units == kept * pow10((e - m) as nat),
            pow10(8) == 100_000_000,
        decreases 8 - e,
    {
        proof {
            lemma_pow10_positive((e - m) as nat);
            lemma_pow10_monotone(e as nat, 8);
            lemma_pow10_split(m as nat, (e - m) as nat);
            assert(kept * pow10((e - m) as nat) < pow10(m as nat) * pow10((e - m) as nat))
                by (nonlinear_arith)
                requires
                    0 <= kept < pow10(m as nat),
                    pow10((e - m) as nat) >= 1,
            ;
            assert(kept * pow10((e + 1 - m) as nat) == kept * pow10((e - m) as nat) * 10)
                by (nonlinear_arith)
                requires
                    pow10((e + 1 - m) as nat) == 10 * pow10((e - m) as nat),
            ;
        }
        units = units * 10;
        e += 1;
    }
    assert(units == frac_units(f));
    proof {
        lemma_pow10_positive((8 - m) as nat);
        assert(units >= 0) by (nonlinear_arith)
            requires
                units == kept * pow10((8 - m) as nat),
                kept >= 0,
                pow10((8 - m) as nat) >= 1,
        ;
    }
    let mut total = match scaled_int.checked_add(units) {
        Some(x) => x,
        None => {
            return Err(PriceError::Overflow);
        },
    };
    if flen > FRAC_DIGITS {
        proof {
            lemma_ascii_byte(s[start + 8], b@[start + 8]);
        }
        assert(f[8] == s[start + 8]);
        assert(is_digit(f[8]));
        if b[start + FRAC_DIGITS] >= ASCII_FIVE {
            assert(rounds_up(f));
            total = match total.checked_add(1) {
                Some(x) => x,
                None => {
                    return Err(PriceError::Overflow);
                },
            };
        } else {
            assert(!rounds_up(f));
        }
    }
    Ok(total)
}

/// Parses a decimal price string, ignoring surrounding whitespace, into its
/// value times 10^8 rounded half up at the ninth fractional digit.
pub fn parse_price_i64_1e8(s: &str) -> (r: Result<i64, PriceError>)
    ensures
        r == parse_spec(trim_of(s@)),
{
    let t = trim_str(s);
    parse_scaled_decimal(t)
}

} // verus!
