//! Prices and volumes as exact decimal numbers with eight fraction digits.

use crate::parse_csv_date::{digit_value, is_digit};
use vstd::prelude::*;
use vstd::string::*;

verus! {

/// Units in one: a unit is a hundred-millionth.
pub const SCALE: u64 = 100_000_000;

/// Fraction digits that a unit keeps: `SCALE` is ten to this power.
pub const FRACTION_DIGITS: u64 = 8;

/// A decimal number, held as its count of hundred-millionths.
#[derive(Clone, Copy, Debug, PartialEq, Eq, PartialOrd, Ord, Hash, Structural)]
pub struct Decimal {
    pub units: i64,
}

pub open spec fn all_digits(s: Seq<char>) -> bool {
    forall|i: int| 0 <= i < s.len() ==> is_digit(#[trigger] s[i])
}

/// The number that a sequence of digits writes.
pub open spec fn digits_value(s: Seq<char>) -> nat
    decreases s.len(),
{
    if s.len() == 0 {
        0
    } else {
        (digits_value(s.drop_last()) * 10 + digit_value(s.last())) as nat
    }
}

/// How many digits a text begins with.
pub open spec fn leading_digits(s: Seq<char>) -> nat
    decreases s.len(),
{
    if s.len() > 0 && is_digit(s[0]) {
        1 + leading_digits(s.drop_first())
    } else {
        0
    }
}

/// Ten to the power of `n`.
pub open spec fn pow10(n: nat) -> nat
    decreases n,
{
    if n == 0 {
        1
    } else {
        10 * pow10((n - 1) as nat)
    }
}

/// Units written by digits of which the first counts ten to the power of
/// `top` units and each next a tenth of the one before, rounded down:
/// digits that would count less than a unit count nothing.
pub open spec fn shifted_units(digits: Seq<char>, top: int) -> nat
    decreases digits.len(),
{
    if digits.len() == 0 || top < 0 {
        0
    } else {
        (digit_value(digits[0]) * pow10(top as nat)) as nat + shifted_units(
            digits.drop_first(),
            top - 1,
        )
    }
}

pub open spec fn is_signed(s: Seq<char>) -> bool {
    s.len() > 0 && (s[0] == '+' || s[0] == '-')
}

/// A text without its sign.
pub open spec fn unsigned_part(s: Seq<char>) -> Seq<char> {
    if is_signed(s) {
        s.drop_first()
    } else {
        s
    }
}

/// The digits before the point.
pub open spec fn whole_part(body: Seq<char>) -> Seq<char> {
    body.take(leading_digits(body) as int)
}

/// What follows the digits before the point.
pub open spec fn after_whole(body: Seq<char>) -> Seq<char> {
    body.skip(leading_digits(body) as int)
}

pub open spec fn has_point(body: Seq<char>) -> bool {
    after_whole(body).len() > 0 && after_whole(body)[0] == '.'
}

/// What follows the point, or the digits before it if there is no point.
pub open spec fn after_point(body: Seq<char>) -> Seq<char> {
    if has_point(body) {
        after_whole(body).drop_first()
    } else {
        after_whole(body)
    }
}

/// The digits after the point.
pub open spec fn fraction_part(body: Seq<char>) -> Seq<char> {
    if has_point(body) {
        after_point(body).take(leading_digits(after_point(body)) as int)
    } else {
        Seq::empty()
    }
}

/// What follows the digits and the point: the exponent, if the text is a
/// number.
pub open spec fn after_mantissa(body: Seq<char>) -> Seq<char> {
    if has_point(body) {
        after_point(body).skip(leading_digits(after_point(body)) as int)
    } else {
        after_whole(body)
    }
}

/// The end of a text is nothing, or `e` or `E`, an optional sign and one or
/// more digits.
pub open spec fn is_exponent(tail: Seq<char>) -> bool {
    tail.len() > 0 ==> {
        &&& tail[0] == 'e' || tail[0] == 'E'
        &&& unsigned_part(tail.drop_first()).len() > 0
        &&& all_digits(unsigned_part(tail.drop_first()))
    }
}

/// The power of ten that an exponent writes; zero where there is none.
pub open spec fn exponent_of(tail: Seq<char>) -> int {
    if tail.len() == 0 {
        0
    } else if tail.drop_first().len() > 0 && tail.drop_first()[0] == '-' {
        -(digits_value(unsigned_part(tail.drop_first())) as int)
    } else {
        digits_value(unsigned_part(tail.drop_first())) as int
    }
}

/// The text is a number in decimal notation without a sign: digits with at
/// most one point among them, before them or after them, and optionally an
/// exponent.
pub open spec fn is_number(body: Seq<char>) -> bool {
    &&& whole_part(body).len() + fraction_part(body).len() >= 1
    &&& is_exponent(after_mantissa(body))
}

/// Units of a number without a sign, rounded down to a whole unit.
pub open spec fn number_units(body: Seq<char>) -> nat {
    shifted_units(
        whole_part(body) + fraction_part(body),
        whole_part(body).len() - 1 + FRACTION_DIGITS + exponent_of(after_mantissa(body)),
    )
}

/// The text is a number in decimal notation, with or without a sign.
pub open spec fn is_decimal(s: Seq<char>) -> bool {
    is_number(unsigned_part(s))
}

/// Units of the number without its sign, rounded down to a whole unit.
pub open spec fn magnitude(s: Seq<char>) -> nat {
    number_units(unsigned_part(s))
}

/// The units that a text denotes, if it is a number whose units fit.
pub open spec fn decimal_units(s: Seq<char>) -> Option<int> {
    if is_decimal(s) && magnitude(s) <= i64::MAX {
        if s[0] == '-' {
            Some(-(magnitude(s) as int))
        } else {
            Some(magnitude(s) as int)
        }
    } else {
        None
    }
}

/// A number kept within `bound` of zero.
pub open spec fn clamped(x: int, bound: int) -> int {
    if x > bound {
        bound
    } else if x < -bound {
        -bound
    } else {
        x
    }
}

/// The digits that a text begins with end where `end` says.
proof fn lemma_leading_digits_end(s: Seq<char>, end: int)
    requires
        0 <= end <= s.len(),
        all_digits(s.take(end)),
        end < s.len() ==> !is_digit(s[end]),
    ensures
        leading_digits(s) == end,
    decreases end,
{
    if end == 0 {
    } else {
        assert(s.take(end)[0] == s[0]);
        let rest = s.drop_first();
        assert forall|i: int| 0 <= i < end - 1 implies is_digit(#[trigger] rest.take(end - 1)[i]) by {
            assert(rest.take(end - 1)[i] == s.take(end)[i + 1]);
        }
        lemma_leading_digits_end(rest, end - 1);
    }
}

/// A text begins with as many digits as `leading_digits` counts.
proof fn lemma_leading_digits_are_digits(s: Seq<char>)
    ensures
        leading_digits(s) <= s.len(),
        all_digits(s.take(leading_digits(s) as int)),
    decreases s.len(),
{
    if s.len() > 0 && is_digit(s[0]) {
        let rest = s.drop_first();
        lemma_leading_digits_are_digits(rest);
        let n = leading_digits(s) as int;
        assert forall|i: int| 0 <= i < n implies is_digit(#[trigger] s.take(n)[i]) by {
            if i > 0 {
                assert(s.take(n)[i] == rest.take(n - 1)[i - 1]);
            }
        }
    }
}

/// Powers of ten grow with the power.
proof fn lemma_pow10_grows(a: nat, b: nat)
    requires
        a <= b,
    ensures
        0 < pow10(a) <= pow10(b),
    decreases b,
{
    if b == 0 {
    } else if a == b {
        lemma_pow10_grows((a - 1) as nat, (b - 1) as nat);
    } else {
        lemma_pow10_grows(a, (b - 1) as nat);
    }
}

/// Ten to the nineteenth is more than any number of units that fits.
proof fn lemma_pow10_nineteen()
    ensures
        pow10(18) == 1_000_000_000_000_000_000,
        pow10(19) > i64::MAX,
{
    reveal_with_fuel(pow10, 20);
}

/// Digits that are all zero write zero units, whatever the first counts.
proof fn lemma_zeros_write_nothing(digits: Seq<char>, top: int)
    requires
        forall|i: int| 0 <= i < digits.len() ==> #[trigger] digits[i] == '0',
    ensures
        shifted_units(digits, top) == 0,
    decreases digits.len(),
{
    if digits.len() > 0 && top >= 0 {
        lemma_zeros_write_nothing(digits.drop_first(), top - 1);
        assert(digit_value(digits[0]) == 0);
        assert(0 * pow10(top as nat) == 0) by (nonlinear_arith);
    }
}

/// A digit other than zero that counts ten to the nineteenth or more makes
/// the units too many to fit.
proof fn lemma_large_digit_overflows(digits: Seq<char>, top: int, at: int)
    requires
        all_digits(digits),
        0 <= at < digits.len(),
        digits[at] != '0',
        top - at >= 19,
    ensures
        shifted_units(digits, top) > i64::MAX,
    decreases at,
{
    if at == 0 {
        lemma_pow10_grows(19, top as nat);
        lemma_pow10_nineteen();
        assert(digit_value(digits[0]) * pow10(top as nat) >= pow10(top as nat))
            by (nonlinear_arith)
            requires
                digit_value(digits[0]) >= 1,
                pow10(top as nat) > 0,
        ;
    } else {
        let rest = digits.drop_first();
        assert(rest[at - 1] == digits[at]);
        lemma_large_digit_overflows(rest, top - 1, at - 1);
        assert(digit_value(digits[0]) * pow10(top as nat) >= 0) by (nonlinear_arith)
            requires
                digit_value(digits[0]) >= 0,
                pow10(top as nat) >= 0,
        ;
    }
}

/// The units of digits written one after the other are the units of the
/// first and those of the second, which count on from where the first end.
proof fn lemma_units_of_both(first: Seq<char>, second: Seq<char>, top: int)
    ensures
        shifted_units(first + second, top) == shifted_units(first, top) + shifted_units(
            second,
            top - first.len(),
        ),
    decreases first.len(),
{
    if first.len() == 0 {
        assert(first + second =~= second);
    } else if top < 0 {
    } else {
        assert((first + second).drop_first() =~= first.drop_first() + second);
        lemma_units_of_both(first.drop_first(), second, top - 1);
    }
}

/// An exponent further from zero than the digits are long, and forty more,
/// may be taken for one that far: the units are the same, or too many to fit
/// with both.
proof fn lemma_far_exponent(digits: Seq<char>, base: int, exponent: int, bound: int)
    requires
        all_digits(digits),
        0 <= base <= digits.len() + 8,
        bound >= digits.len() + 40,
    ensures
        shifted_units(digits, base + exponent) <= i64::MAX <==> shifted_units(
            digits,
            base + clamped(exponent, bound),
        ) <= i64::MAX,
        shifted_units(digits, base + exponent) <= i64::MAX ==> shifted_units(
            digits,
            base + exponent,
        ) == shifted_units(digits, base + clamped(exponent, bound)),
{
    if exponent > bound {
        if forall|i: int| 0 <= i < digits.len() ==> #[trigger] digits[i] == '0' {
            lemma_zeros_write_nothing(digits, base + exponent);
            lemma_zeros_write_nothing(digits, base + bound);
        } else {
            let at = choose|i: int| 0 <= i < digits.len() && #[trigger] digits[i] != '0';
            lemma_large_digit_overflows(digits, base + exponent, at);
            lemma_large_digit_overflows(digits, base + bound, at);
        }
    }
}

/// The end of a text that is an exponent is written in ASCII.
proof fn lemma_exponent_is_ascii(tail: Seq<char>, at: int)
    requires
        is_exponent(tail),
        0 <= at < tail.len(),
    ensures
        '\0' <= tail[at] <= '\u{7f}',
{
    if at > 0 {
        let signed = tail.drop_first();
        assert(signed[at - 1] == tail[at]);
        if is_signed(signed) {
            if at > 1 {
                assert(is_digit(unsigned_part(signed)[at - 2]));
            }
        } else {
            assert(is_digit(unsigned_part(signed)[at - 1]));
        }
    }
}

/// A number in decimal notation is written in ASCII.
proof fn lemma_decimal_is_ascii(s: Seq<char>)
    requires
        is_decimal(s),
    ensures
        vstd::utf8::is_ascii_chars(s),
{
    let body = unsigned_part(s);
    let start: int = if is_signed(s) { 1 } else { 0 };
    let whole = leading_digits(body) as int;
    lemma_leading_digits_are_digits(body);
    lemma_leading_digits_are_digits(after_point(body));
    let tail = after_mantissa(body);
    assert forall|i: int| 0 <= i < s.len() implies '\0' <= #[trigger] s[i] <= '\u{7f}' by {
        if i >= start {
            let j = i - start;
            assert(s[i] == body[j]);
            if j < whole {
                assert(is_digit(body.take(whole)[j]));
            } else if has_point(body) {
                let fraction = leading_digits(after_point(body)) as int;
                if j == whole {
                    assert(after_whole(body)[0] == body[j]);
                } else if j - whole - 1 < fraction {
                    assert(after_point(body)[j - whole - 1] == body[j]);
                    assert(is_digit(after_point(body).take(fraction)[j - whole - 1]));
                } else {
                    assert(tail[j - whole - 1 - fraction] == body[j]);
                    lemma_exponent_is_ascii(tail, j - whole - 1 - fraction);
                }
            } else {
                assert(tail[j - whole] == body[j]);
                lemma_exponent_is_ascii(tail, j - whole);
            }
        }
    }
}

/// Where the digits that begin at `from` end.
fn scan_digits(text: &str, n: usize, from: usize) -> (end: usize)
    requires
        is_ascii(text),
        n == text@.len(),
        from <= n,
    ensures
        from <= end <= n,
        end - from == leading_digits(text@.skip(from as int)),
{
    let ghost rest = text@.skip(from as int);
    let mut end = from;
    let mut in_digits = true;
    while end < n && in_digits
        invariant
            is_ascii(text),
            n == text@.len(),
            from <= end <= n,
            rest == text@.skip(from as int),
            all_digits(rest.take(end - from)),
            !in_digits ==> end < n && !is_digit(rest[end - from]),
        decreases (n - end) + (if in_digits { 1int } else { 0int }),
    {
        let c = text.get_ascii(end);
        if 48 <= c && c <= 57 {
            proof {
                let longer = rest.take(end - from + 1);
                assert forall|i: int| 0 <= i < longer.len() implies is_digit(
                    #[trigger] longer[i],
                ) by {
                    if i < end - from {
                        assert(longer[i] == rest.take(end - from)[i]);
                    }
                }
            }
            end += 1;
        } else {
            in_digits = false;
        }
    }
    proof {
        lemma_leading_digits_end(rest, end - from);
    }
    end
}

/// The power of ten that the exponent from `from` on writes, kept within
/// the length of the text and forty-one of zero; `None` if what is there is
/// no exponent.
fn read_exponent(text: &str, n: usize, from: usize) -> (r: Option<i128>)
    requires
        is_ascii(text),
        n == text@.len(),
        from <= n,
    ensures
        match r {
            Some(e) => is_exponent(text@.skip(from as int)) && e == clamped(
                exponent_of(text@.skip(from as int)),
                n + 41,
            ),
            None => !is_exponent(text@.skip(from as int)),
        },
{
    let ghost tail = text@.skip(from as int);
    if from == n {
        return Some(0);
    }
    let mark = text.get_ascii(from);
    if mark != 101 && mark != 69 {
        return None;
    }
    let mut at = from + 1;
    let mut negative = false;
    if at < n {
        let sign = text.get_ascii(at);
        if sign == 43 || sign == 45 {
            negative = sign == 45;
            at += 1;
        }
    }
    let first = at;
    let ghost digits = unsigned_part(tail.drop_first());
    proof {
        assert(tail.drop_first() =~= text@.skip(from + 1));
        assert(digits =~= text@.skip(first as int));
    }
    if first == n {
        return None;
    }
    let limit: u128 = n as u128 + 41;
    let mut value: u128 = 0;
    let mut far = false;
    while at < n
        invariant
            is_ascii(text),
            n == text@.len(),
            first <= at <= n,
            limit == n + 41,
            from < n,
            tail == text@.skip(from as int),
            digits == unsigned_part(tail.drop_first()),
            digits == text@.skip(first as int),
            all_digits(digits.take(at - first)),
            !far ==> value == digits_value(digits.take(at - first)) && value < limit,
            far ==> digits_value(digits.take(at - first)) >= limit,
        decreases n - at,
    {
        let c = text.get_ascii(at);
        if !(48 <= c && c <= 57) {
            assert(!is_digit(digits[at - first]));
            return None;
        }
        proof {
            let longer = digits.take(at - first + 1);
            assert(longer.drop_last() =~= digits.take(at - first));
            assert(longer.last() == digits[at - first]);
            assert forall|i: int| 0 <= i < longer.len() implies is_digit(#[trigger] longer[i]) by {
                if i < at - first {
                    assert(longer[i] == digits.take(at - first)[i]);
                }
            }
        }
        if !far {
            value = value * 10 + (c - 48) as u128;
            if value >= limit {
                far = true;
            }
        }
        at += 1;
    }
    assert(digits.take(digits.len() as int) =~= digits);
    let size: i128 = if far {
        limit as i128
    } else {
        value as i128
    };
    if negative {
        Some(-size)
    } else {
        Some(size)
    }
}

/// Ten to the power of `n`.
fn ten_to(n: u32) -> (r: u64)
    requires
        n <= 18,
    ensures
        r == pow10(n as nat),
        r <= 1_000_000_000_000_000_000,
{
    let mut r: u64 = 1;
    let mut i: u32 = 0;
    while i < n
        invariant
            i <= n <= 18,
            r == pow10(i as nat),
        decreases n - i,
    {
        proof {
            lemma_pow10_grows((i + 1) as nat, 18);
            lemma_pow10_nineteen();
        }
        r = r * 10;
        i += 1;
    }
    proof {
        lemma_pow10_grows(n as nat, 18);
        lemma_pow10_nineteen();
    }
    r
}

/// Adds to `sum` the units that the digits from `from` to `to` write, the
/// first counting ten to the power of `top`; `None` if they do not fit.
fn add_units(text: &str, from: usize, to: usize, top: i128, sum: u64) -> (r: Option<u64>)
    requires
        is_ascii(text),
        from <= to <= text@.len(),
        all_digits(text@.subrange(from as int, to as int)),
        sum <= i64::MAX,
        -0x1_0000_0000_0000_0000_0000 <= top <= 0x1_0000_0000_0000_0000_0000,
    ensures
        match r {
            Some(total) => total <= i64::MAX && total == sum + shifted_units(
                text@.subrange(from as int, to as int),
                top as int,
            ),
            None => sum + shifted_units(text@.subrange(from as int, to as int), top as int)
                > i64::MAX,
        },
{
    let ghost digits = text@.subrange(from as int, to as int);
    let mut total = sum;
    let mut at = from;
    let mut weight = top;
    assert(digits.skip(0) =~= digits);
    while at < to && weight >= 0
        invariant
            is_ascii(text),
            from <= at <= to <= text@.len(),
            digits == text@.subrange(from as int, to as int),
            all_digits(digits),
            weight == top - (at - from),
            total <= i64::MAX,
            sum + shifted_units(digits, top as int) == total + shifted_units(
                digits.skip(at - from),
                weight as int,
            ),
        decreases to - at,
    {
        let ghost rest = digits.skip(at - from);
        let d = text.get_ascii(at) - 48;
        proof {
            assert(rest[0] == digits[at - from]);
            assert(is_digit(digits[at - from]));
            assert(rest.drop_first() =~= digits.skip(at - from + 1));
            assert(shifted_units(rest, weight as int) >= shifted_units(
                rest.drop_first(),
                weight - 1,
            ));
        }
        if d != 0 {
            if weight > 18 {
                proof {
                    assert forall|i: int| 0 <= i < rest.len() implies is_digit(
                        #[trigger] rest[i],
                    ) by {
                        assert(rest[i] == digits[at - from + i]);
                    }
                    lemma_large_digit_overflows(rest, weight as int, 0);
                }
                return None;
            }
            let power = ten_to(weight as u32);
            assert(d * power <= 9 * power) by (nonlinear_arith)
                requires
                    d <= 9,
                    power >= 0,
            ;
            total = total + d as u64 * power;
            if total > 9_223_372_036_854_775_807 {
                return None;
            }
        } else {
            assert(0 * pow10(weight as nat) == 0) by (nonlinear_arith);
        }
        at += 1;
        weight -= 1;
    }
    Some(total)
}

/// What the parts of a number are, given where its digits were found to end.
proof fn lemma_parts(s: Seq<char>, start: int, whole_end: int, pointed: bool, fraction_end: int)
    requires
        0 <= start <= whole_end <= s.len(),
        whole_end - start == leading_digits(s.skip(start)),
        pointed == (whole_end < s.len() && s[whole_end] == '.'),
        pointed ==> whole_end + 1 <= fraction_end <= s.len() && fraction_end - (whole_end + 1)
            == leading_digits(s.skip(whole_end + 1)),
        !pointed ==> fraction_end == whole_end,
    ensures
        whole_part(s.skip(start)) == s.subrange(start, whole_end),
        fraction_part(s.skip(start)) == s.subrange(
            if pointed { whole_end + 1 } else { whole_end },
            fraction_end,
        ),
        after_mantissa(s.skip(start)) == s.skip(fraction_end),
        all_digits(whole_part(s.skip(start))),
        all_digits(fraction_part(s.skip(start))),
        all_digits(whole_part(s.skip(start)) + fraction_part(s.skip(start))),
{
    let body = s.skip(start);
    lemma_leading_digits_are_digits(body);
    assert(whole_part(body) =~= s.subrange(start, whole_end));
    assert(after_whole(body) =~= s.skip(whole_end));
    assert(has_point(body) == pointed);
    if pointed {
        assert(after_point(body) =~= s.skip(whole_end + 1));
        lemma_leading_digits_are_digits(after_point(body));
        assert(fraction_part(body) =~= s.subrange(whole_end + 1, fraction_end));
        assert(after_mantissa(body) =~= s.skip(fraction_end));
    } else {
        assert(fraction_part(body) =~= s.subrange(whole_end, fraction_end));
    }
    let whole = whole_part(body);
    let fraction = fraction_part(body);
    assert forall|i: int| 0 <= i < (whole + fraction).len() implies is_digit(
        #[trigger] (whole + fraction)[i],
    ) by {
        if i < whole.len() {
            assert((whole + fraction)[i] == whole[i]);
        } else {
            assert((whole + fraction)[i] == fraction[i - whole.len()]);
        }
    }
}

/// The units that the digits before and after the point write together, the
/// first digit of all counting ten to the power of `top`; `None` if they do
/// not fit.
fn add_both(
    text: &str,
    start: usize,
    whole_end: usize,
    fraction_start: usize,
    fraction_end: usize,
    top: i128,
) -> (r: Option<u64>)
    requires
        is_ascii(text),
        start <= whole_end <= fraction_start <= fraction_end <= text@.len(),
        all_digits(text@.subrange(start as int, whole_end as int)),
        all_digits(text@.subrange(fraction_start as int, fraction_end as int)),
        -0x1_0000_0000_0000_0000_000 <= top <= 0x1_0000_0000_0000_0000_000,
    ensures
        match r {
            Some(total) => total <= i64::MAX && total == shifted_units(
                text@.subrange(start as int, whole_end as int) + text@.subrange(
                    fraction_start as int,
                    fraction_end as int,
                ),
                top as int,
            ),
            None => shifted_units(
                text@.subrange(start as int, whole_end as int) + text@.subrange(
                    fraction_start as int,
                    fraction_end as int,
                ),
                top as int,
            ) > i64::MAX,
        },
{
    proof {
        lemma_units_of_both(
            text@.subrange(start as int, whole_end as int),
            text@.subrange(fraction_start as int, fraction_end as int),
            top as int,
        );
    }
    let units = match add_units(text, start, whole_end, top, 0) {
        Some(units) => units,
        None => {
            return None;
        },
    };
    add_units(text, fraction_start, fraction_end, top - (whole_end - start) as i128, units)
}

/// The units of the number without a sign that begins at `start`; `None` if
/// what is there is no number, or one whose units do not fit.
fn read_unsigned(text: &str, n: usize, start: usize) -> (r: Option<u64>)
    requires
        is_ascii(text),
        n == text@.len(),
        start <= n,
    ensures
        match r {
            Some(units) => is_number(text@.skip(start as int)) && units == number_units(
                text@.skip(start as int),
            ) && units <= i64::MAX,
            None => !is_number(text@.skip(start as int)) || number_units(
                text@.skip(start as int),
            ) > i64::MAX,
        },
{
    let whole_end = scan_digits(text, n, start);
    let pointed = whole_end < n && text.get_ascii(whole_end) == 46;
    let fraction_start = if pointed {
        whole_end + 1
    } else {
        whole_end
    };
    let fraction_end = if pointed {
        scan_digits(text, n, fraction_start)
    } else {
        whole_end
    };
    let ghost body = text@.skip(start as int);
    proof {
        lemma_parts(text@, start as int, whole_end as int, pointed, fraction_end as int);
    }
    if (whole_end - start) + (fraction_end - fraction_start) == 0 {
        return None;
    }
    let exponent = match read_exponent(text, n, fraction_end) {
        Some(e) => e,
        None => {
            return None;
        },
    };
    let top = (whole_end - start) as i128 - 1 + FRACTION_DIGITS as i128 + exponent;
    proof {
        lemma_far_exponent(
            whole_part(body) + fraction_part(body),
            whole_part(body).len() - 1 + FRACTION_DIGITS,
            exponent_of(after_mantissa(body)),
            n + 41,
        );
    }
    add_both(text, start, whole_end, fraction_start, fraction_end, top)
}

impl Decimal {
    /// Reads a number in decimal notation: an optional sign, digits with at
    /// most one point among them, before them or after them, and optionally
    /// `e` or `E` with a power of ten. The number is rounded towards zero to
    /// a whole unit. A text of another form, or a number whose units do not
    /// fit, gives `None`.
    pub fn parse(text: &str) -> (r: Option<Decimal>)
        ensures
            match r {
                Some(d) => decimal_units(text@) == Some(d.units as int),
                None => decimal_units(text@) is None,
            },
    {
        if !text.is_ascii() {
            proof {
                if is_decimal(text@) {
                    lemma_decimal_is_ascii(text@);
                }
            }
            return None;
        }
        let n = text.unicode_len();
        let mut start: usize = 0;
        let mut negative = false;
        if n > 0 {
            let first = text.get_ascii(0);
            if first == 43 || first == 45 {
                negative = first == 45;
                start = 1;
            }
        }
        assert(unsigned_part(text@) =~= text@.skip(start as int));
        match read_unsigned(text, n, start) {
            Some(units) => if negative {
                Some(Decimal { units: -(units as i64) })
            } else {
                Some(Decimal { units: units as i64 })
            },
            None => None,
        }
    }
}

} // verus!
