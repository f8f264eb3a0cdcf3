//! Numerals as they stand in the value columns: a sign, digits with a
//! fraction, an exponent; and the amounts in bytes that they state.

use vstd::prelude::*;
use crate::digits::{
    decimal_value, is_decimal, is_digit_byte, lemma_decimal_bound, lemma_decimal_push,
    lemma_pow10_monotonic, parse_decimal, pow10,
};
use crate::smaps::UsageError;

verus! {

/// Bytes to the kernel's kilobyte.
pub const KILOBYTE: u64 = 1024;

/// How many digits `s` opens with.
pub open spec fn digit_run(s: Seq<u8>) -> nat
    decreases s.len(),
{
    if s.len() > 0 && is_digit_byte(s[0]) {
        1 + digit_run(s.drop_first())
    } else {
        0
    }
}

/// Whether `b` is a plus or a minus.
pub open spec fn is_sign(b: u8) -> bool {
    b == 0x2b || b == 0x2d
}

/// How long the sign is that `s` opens with: one byte or none.
pub open spec fn sign_len(s: Seq<u8>) -> nat {
    if s.len() > 0 && is_sign(s[0]) {
        1
    } else {
        0
    }
}

/// Whether `s` opens with a minus.
pub open spec fn has_minus(s: Seq<u8>) -> bool {
    s.len() > 0 && s[0] == 0x2d
}

/// `text` behind its sign.
pub open spec fn unsigned_part(text: Seq<u8>) -> Seq<u8> {
    text.skip(sign_len(text) as int)
}

/// How many digits stand before the point.
pub open spec fn whole_len(text: Seq<u8>) -> nat {
    digit_run(unsigned_part(text))
}

/// `text` behind its sign and the digits before the point.
pub open spec fn after_whole(text: Seq<u8>) -> Seq<u8> {
    unsigned_part(text).skip(whole_len(text) as int)
}

/// Whether a point follows the digits before it.
pub open spec fn has_point(text: Seq<u8>) -> bool {
    after_whole(text).len() > 0 && after_whole(text)[0] == 0x2e
}

/// `text` from where the fraction digits would start.
pub open spec fn after_point(text: Seq<u8>) -> Seq<u8> {
    if has_point(text) {
        after_whole(text).skip(1)
    } else {
        after_whole(text)
    }
}

/// How many digits stand behind the point.
pub open spec fn fraction_len(text: Seq<u8>) -> nat {
    if has_point(text) {
        digit_run(after_point(text))
    } else {
        0
    }
}

/// What follows the digits: nothing, or the exponent with its letter.
pub open spec fn after_digits(text: Seq<u8>) -> Seq<u8> {
    after_point(text).skip(fraction_len(text) as int)
}

/// The digits before and behind the point, taken as one numeral.
pub open spec fn mantissa_digits(text: Seq<u8>) -> Seq<u8> {
    unsigned_part(text).take(whole_len(text) as int) + after_point(text).take(
        fraction_len(text) as int,
    )
}

/// The power of ten that `s` states behind the exponent's letter: an
/// optional sign and at least one digit.
pub open spec fn exponent_of(s: Seq<u8>) -> Option<int> {
    let digits = s.skip(sign_len(s) as int);
    if !is_decimal(digits) {
        None
    } else if has_minus(s) {
        Some(-(decimal_value(digits) as int))
    } else {
        Some(decimal_value(digits) as int)
    }
}

/// The power of ten of the numeral `text`: zero where nothing follows the
/// digits, and `None` where what follows is no exponent.
pub open spec fn numeral_exponent(text: Seq<u8>) -> Option<int> {
    let rest = after_digits(text);
    if rest.len() == 0 {
        Some(0)
    } else if rest[0] == 0x65 || rest[0] == 0x45 {
        exponent_of(rest.skip(1))
    } else {
        None
    }
}

/// Whether `text` is a numeral: an optional sign, digits with an optional
/// point among them, at least one digit in all, and an optional exponent of
/// `e` or `E`, an optional sign and digits.
pub open spec fn is_numeral(text: Seq<u8>) -> bool {
    whole_len(text) + fraction_len(text) > 0 && numeral_exponent(text) is Some
}

/// The bytes in `mantissa` kilobytes times ten to the `shift`, rounded down
/// to a whole byte.
pub open spec fn scaled_bytes(mantissa: nat, shift: int) -> nat {
    if shift >= 0 {
        KILOBYTE as nat * mantissa * pow10(shift as nat)
    } else {
        (KILOBYTE as nat * mantissa) / pow10((-shift) as nat)
    }
}

/// The bytes that the numeral `text` states, without its sign: its
/// kilobytes times 1024, rounded down to a whole byte.
pub open spec fn numeral_magnitude(text: Seq<u8>) -> nat {
    scaled_bytes(
        decimal_value(mantissa_digits(text)),
        numeral_exponent(text).unwrap() - fraction_len(text),
    )
}

/// The bytes that the numeral `text` states: the magnitude, negative behind
/// a minus. Rounding is towards zero.
pub open spec fn numeral_bytes(text: Seq<u8>) -> int {
    if has_minus(text) {
        -(numeral_magnitude(text) as int)
    } else {
        numeral_magnitude(text) as int
    }
}

/// The amount that `text` states: an error where it is no numeral, and
/// where its bytes, without the sign, are beyond 64 bits.
pub open spec fn stated_amount(text: Seq<u8>) -> Result<i128, UsageError> {
    if !is_numeral(text) {
        Err(UsageError::BadValue)
    } else if numeral_magnitude(text) <= u64::MAX {
        Ok(numeral_bytes(text) as i128)
    } else {
        Err(UsageError::OutOfRange)
    }
}

/// The run of digits ends where the first byte stands that is no digit.
pub proof fn lemma_digit_run_is(s: Seq<u8>, k: int)
    requires
        0 <= k <= s.len(),
        forall|j: int| 0 <= j < k ==> is_digit_byte(#[trigger] s[j]),
        k < s.len() ==> !is_digit_byte(s[k]),
    ensures
        digit_run(s) == k,
    decreases k,
{
    if k > 0 {
        let t = s.drop_first();
        assert forall|j: int| 0 <= j < k - 1 implies is_digit_byte(#[trigger] t[j]) by {
            assert(t[j] == s[j + 1]);
        }
        lemma_digit_run_is(t, k - 1);
    }
}

/// Ten to any power is at least one.
pub proof fn lemma_pow10_positive(n: nat)
    ensures
        pow10(n) >= 1,
    decreases n,
{
    if n > 0 {
        lemma_pow10_positive((n - 1) as nat);
    }
}

/// Ten to the power `k`, for a power that 128 bits can hold with room to
/// spare.
fn power_of_ten(k: u32) -> (r: u128)
    requires
        k <= 21,
    ensures
        r == pow10(k as nat),
        r <= 1_000_000_000_000_000_000_000,
{
    let mut r: u128 = 1;
    let mut i: u32 = 0;
    proof {
        assert(pow10(21) == 1_000_000_000_000_000_000_000) by {
            reveal_with_fuel(pow10, 22);
        }
    }
    while i < k
        invariant
            0 <= i <= k <= 21,
            r == pow10(i as nat),
            pow10(21) == 1_000_000_000_000_000_000_000,
        decreases k - i,
    {
        proof {
            lemma_pow10_monotonic((i + 1) as nat, 21);
        }
        r = r * 10;
        i = i + 1;
    }
    proof {
        lemma_pow10_monotonic(k as nat, 21);
    }
    r
}

/// The value of two runs of digits read as one numeral.
pub proof fn lemma_decimal_concat(a: Seq<u8>, b: Seq<u8>)
    ensures
        decimal_value(a + b) == decimal_value(a) * pow10(b.len()) + decimal_value(b),
    decreases b.len(),
{
    if b.len() == 0 {
        assert(a + b =~= a);
        assert(decimal_value(a) * 1 == decimal_value(a)) by (nonlinear_arith);
    } else {
        let shorter = b.drop_last();
        lemma_decimal_concat(a, shorter);
        assert((a + b).drop_last() =~= a + shorter);
        assert((a + b).last() == b.last());
        let x = decimal_value(a);
        let p = pow10(shorter.len());
        assert(pow10(b.len()) == 10 * p);
        assert(10 * (x * p + decimal_value(shorter)) == x * (10 * p) + 10 * decimal_value(
            shorter,
        )) by (nonlinear_arith);
    }
}

/// What the places of the parts of a numeral say of the numeral: the
/// digits before the point stand from `from` to `point_at`, those behind
/// it from `fraction_from` to `digits_end`.
proof fn lemma_numeral_parts(
    text: Seq<u8>,
    from: int,
    point_at: int,
    fraction_from: int,
    digits_end: int,
)
    requires
        from == sign_len(text),
        from <= point_at <= fraction_from <= digits_end <= text.len(),
        forall|j: int| from <= j < point_at ==> is_digit_byte(#[trigger] text[j]),
        point_at < text.len() ==> !is_digit_byte(text[point_at]),
        fraction_from == point_at || (fraction_from == point_at + 1 && text[point_at] == 0x2e),
        fraction_from == point_at ==> digits_end == point_at && (point_at < text.len()
            ==> text[point_at] != 0x2e),
        forall|j: int| fraction_from <= j < digits_end ==> is_digit_byte(#[trigger] text[j]),
        digits_end < text.len() ==> !is_digit_byte(text[digits_end]),
    ensures
        whole_len(text) == point_at - from,
        has_point(text) == (fraction_from == point_at + 1),
        fraction_len(text) == digits_end - fraction_from,
        after_digits(text) == text.subrange(digits_end, text.len() as int),
        mantissa_digits(text) == text.subrange(from, point_at) + text.subrange(
            fraction_from,
            digits_end,
        ),
{
    let n = text.len() as int;
    let body = unsigned_part(text);
    assert(body =~= text.subrange(from, n));
    assert forall|j: int| 0 <= j < point_at - from implies is_digit_byte(#[trigger] body[j]) by {
        assert(body[j] == text[j + from]);
    }
    lemma_digit_run_is(body, point_at - from);
    assert(after_whole(text) =~= text.subrange(point_at, n));
    assert(body.take(point_at - from) =~= text.subrange(from, point_at));
    let behind = after_point(text);
    assert(behind =~= text.subrange(fraction_from, n));
    if fraction_from == point_at + 1 {
        assert forall|j: int| 0 <= j < digits_end - fraction_from implies is_digit_byte(
            #[trigger] behind[j],
        ) by {
            assert(behind[j] == text[j + fraction_from]);
        }
        lemma_digit_run_is(behind, digits_end - fraction_from);
    }
    assert(after_digits(text) =~= text.subrange(digits_end, n));
    assert(behind.take(digits_end - fraction_from) =~= text.subrange(fraction_from, digits_end));
}

/// Digits, a point and digits state the kilobytes that all the digits
/// spell, divided by ten for each digit behind the point.
pub proof fn lemma_point_numeral(whole: Seq<u8>, fraction: Seq<u8>)
    requires
        forall|j: int| 0 <= j < whole.len() ==> is_digit_byte(#[trigger] whole[j]),
        forall|j: int| 0 <= j < fraction.len() ==> is_digit_byte(#[trigger] fraction[j]),
        whole.len() + fraction.len() > 0,
    ensures
        is_numeral(whole + seq![0x2eu8] + fraction),
        numeral_bytes(whole + seq![0x2eu8] + fraction) == scaled_bytes(
            decimal_value(whole + fraction),
            -(fraction.len() as int),
        ),
{
    let text = whole + seq![0x2eu8] + fraction;
    let at = whole.len() as int;
    assert(text[at] == 0x2eu8);
    assert forall|j: int| 0 <= j < at implies is_digit_byte(#[trigger] text[j]) by {
        assert(text[j] == whole[j]);
    }
    assert forall|j: int| at + 1 <= j < text.len() implies is_digit_byte(#[trigger] text[j]) by {
        assert(text[j] == fraction[j - at - 1]);
    }
    assert(sign_len(text) == 0) by {
        if at > 0 {
            assert(is_digit_byte(text[0]));
        }
    }
    lemma_numeral_parts(text, 0, at, at + 1, text.len() as int);
    assert(text.subrange(0, at) =~= whole);
    assert(text.subrange(at + 1, text.len() as int) =~= fraction);
    assert(after_digits(text).len() == 0);
}

/// The bytes in `mantissa` kilobytes times ten to the `shift`, rounded
/// down, where 64 bits hold them.
fn scale(mantissa: u64, shift: i64) -> (r: Option<u64>)
    requires
        mantissa < 100_000_000,
    ensures
        r is Some <==> scaled_bytes(mantissa as nat, shift as int) <= u64::MAX,
        r is Some ==> r.unwrap() == scaled_bytes(mantissa as nat, shift as int),
{
    let m: u128 = mantissa as u128 * KILOBYTE as u128;
    let ghost km: nat = m as nat;
    assert(KILOBYTE as nat * (mantissa as nat) == km) by (nonlinear_arith)
        requires
            KILOBYTE == 1024,
            km == mantissa * 1024,
    ;
    if shift >= 0 {
        let ghost p = pow10(shift as nat);
        assert(scaled_bytes(mantissa as nat, shift as int) == km * p);
        if m == 0 {
            assert(km * p == 0) by (nonlinear_arith)
                requires
                    km == 0,
            ;
            return Some(0);
        }
        if shift > 20 {
            proof {
                lemma_pow10_monotonic(21, shift as nat);
                assert(pow10(21) == 1_000_000_000_000_000_000_000) by {
                    reveal_with_fuel(pow10, 22);
                }
                assert(km * p > u64::MAX) by (nonlinear_arith)
                    requires
                        km >= 1,
                        p >= 1_000_000_000_000_000_000_000,
                ;
            }
            return None;
        }
        let power: u128 = power_of_ten(shift as u32);
        proof {
            lemma_pow10_monotonic(shift as nat, 20);
            assert(pow10(20) == 100_000_000_000_000_000_000) by {
                reveal_with_fuel(pow10, 21);
            }
            assert(km * p <= 102_400_000_000 * 100_000_000_000_000_000_000) by (nonlinear_arith)
                requires
                    0 <= km <= 102_400_000_000,
                    0 <= p <= 100_000_000_000_000_000_000,
            ;
        }
        let bytes: u128 = m * power;
        if bytes > u64::MAX as u128 {
            None
        } else {
            Some(bytes as u64)
        }
    } else {
        let ghost p = pow10((-shift) as nat);
        assert(scaled_bytes(mantissa as nat, shift as int) == km / p);
        proof {
            lemma_pow10_positive((-shift) as nat);
        }
        if shift < -12 {
            proof {
                lemma_pow10_monotonic(12, (-shift) as nat);
                assert(pow10(12) == 1_000_000_000_000) by {
                    reveal_with_fuel(pow10, 13);
                }
                assert(km / p == 0) by (nonlinear_arith)
                    requires
                        0 <= km < 1_000_000_000_000,
                        p >= 1_000_000_000_000,
                ;
            }
            return Some(0);
        }
        let power: u128 = power_of_ten((-shift) as u32);
        proof {
            assert(km / p <= km) by (nonlinear_arith)
                requires
                    0 <= km,
                    p >= 1,
            ;
        }
        Some((m / power) as u64)
    }
}

/// Reads the digits of `text` from place `from` on: where they end, and
/// what they are worth.
fn take_digits(text: &[u8], from: usize) -> (r: (usize, u64))
    requires
        from <= text@.len() <= 8,
    ensures
        from <= r.0 <= text@.len(),
        forall|j: int| from <= j < r.0 ==> is_digit_byte(#[trigger] text@[j]),
        r.0 < text@.len() ==> !is_digit_byte(text@[r.0 as int]),
        r.1 == decimal_value(text@.subrange(from as int, r.0 as int)),
        r.1 < 100_000_000,
{
    let n: usize = text.len();
    let mut i: usize = from;
    let mut acc: u64 = 0;
    assert(text@.subrange(from as int, from as int) =~= Seq::<u8>::empty());
    while i < n && 0x30 <= text[i] && text[i] <= 0x39
        invariant
            from <= i <= n <= 8,
            n == text@.len(),
            forall|j: int| from <= j < i ==> is_digit_byte(#[trigger] text@[j]),
            acc == decimal_value(text@.subrange(from as int, i as int)),
            acc < 100_000_000,
        decreases n - i,
    {
        proof {
            let seen = text@.subrange(from as int, i as int);
            let grown = text@.subrange(from as int, i + 1);
            lemma_decimal_push(seen, text@[i as int]);
            assert(grown =~= seen.push(text@[i as int]));
            lemma_decimal_bound(grown);
            lemma_pow10_monotonic(grown.len(), 8);
            assert(pow10(8) == 100_000_000) by {
                reveal_with_fuel(pow10, 9);
            }
        }
        acc = acc * 10 + (text[i] - 0x30) as u64;
        i = i + 1;
    }
    (i, acc)
}

/// Reads the power of ten that `text` states from place `from` on.
fn take_exponent(text: &[u8], from: usize) -> (r: Option<i64>)
    requires
        from <= text@.len() <= 8,
    ensures
        r is Some <==> exponent_of(text@.subrange(from as int, text@.len() as int)) is Some,
        r is Some ==> r.unwrap() == exponent_of(
            text@.subrange(from as int, text@.len() as int),
        ).unwrap(),
        r is Some ==> -100_000_000 < r.unwrap() < 100_000_000,
{
    let n: usize = text.len();
    let ghost stated = text@.subrange(from as int, n as int);
    let mut i: usize = from;
    let mut falling: bool = false;
    if i < n && (text[i] == 0x2b || text[i] == 0x2d) {
        falling = text[i] == 0x2d;
        i = i + 1;
    }
    let numeral: &[u8] = &text[i..n];
    proof {
        assert(numeral@ =~= stated.skip(sign_len(stated) as int));
        lemma_decimal_bound(numeral@);
        lemma_pow10_monotonic(numeral@.len(), 8);
        assert(pow10(8) == 100_000_000) by {
            reveal_with_fuel(pow10, 9);
        }
    }
    match parse_decimal(numeral) {
        Some(value) => {
            if falling {
                Some(-(value as i64))
            } else {
                Some(value as i64)
            }
        },
        None => None,
    }
}

/// Reads the amount that `text` states, in bytes. The text is that of the
/// value columns and so at most eight bytes long.
#[verifier::rlimit(60)]
pub(crate) fn parse_numeral(text: &[u8]) -> (r: Result<i128, UsageError>)
    requires
        text@.len() <= 8,
    ensures
        r == stated_amount(text@),
{
    let n: usize = text.len();
    let mut negative: bool = false;
    let mut from: usize = 0;
    if n > 0 && (text[0] == 0x2b || text[0] == 0x2d) {
        negative = text[0] == 0x2d;
        from = 1;
    }
    let (point_at, whole) = take_digits(text, from);
    let fraction_from: usize = if point_at < n && text[point_at] == 0x2e {
        point_at + 1
    } else {
        point_at
    };
    let (digits_end, fraction) = take_digits(text, fraction_from);
    let places: usize = digits_end - fraction_from;
    proof {
        lemma_numeral_parts(
            text@,
            from as int,
            point_at as int,
            fraction_from as int,
            digits_end as int,
        );
        let a = text@.subrange(from as int, point_at as int);
        let b = text@.subrange(fraction_from as int, digits_end as int);
        lemma_decimal_concat(a, b);
        lemma_decimal_bound(a + b);
        lemma_pow10_monotonic((a + b).len(), 8);
        assert(pow10(8) == 100_000_000) by {
            reveal_with_fuel(pow10, 9);
        }
    }
    if (point_at - from) + places == 0 {
        return Err(UsageError::BadValue);
    }
    let power: i64 = if digits_end == n {
        0
    } else if text[digits_end] == 0x65 || text[digits_end] == 0x45 {
        proof {
            assert(after_digits(text@).skip(1) =~= text@.subrange(digits_end + 1, n as int));
        }
        match take_exponent(text, digits_end + 1) {
            Some(power) => power,
            None => {
                return Err(UsageError::BadValue);
            },
        }
    } else {
        return Err(UsageError::BadValue);
    };
    assert(numeral_exponent(text@) == Some(power as int));
    let ten: u128 = power_of_ten(places as u32);
    let mantissa: u128 = whole as u128 * ten + fraction as u128;
    assert(mantissa == decimal_value(mantissa_digits(text@))) by {
        assert(whole as nat * pow10(places as nat) + fraction as nat == decimal_value(
            mantissa_digits(text@),
        ));
    }
    let shift: i64 = power - places as i64;
    match scale(mantissa as u64, shift) {
        Some(bytes) => {
            if negative {
                Ok(-(bytes as i128))
            } else {
                Ok(bytes as i128)
            }
        },
        None => Err(UsageError::OutOfRange),
    }
}

} // verus!
