//! ASCII decimal digits and the numbers they spell.

use vstd::prelude::*;

verus! {

/// Whether the byte `b` is one of the ten ASCII decimal digits.
pub open spec fn is_digit_byte(b: u8) -> bool {
    0x30 <= b <= 0x39
}

/// What a digit is worth; a byte that is no digit is worth nothing.
pub open spec fn digit_value(b: u8) -> nat {
    if is_digit_byte(b) {
        (b - 0x30) as nat
    } else {
        0
    }
}

/// The number that `digits` spell in base ten, most significant digit first.
/// The empty sequence spells zero.
pub open spec fn decimal_value(digits: Seq<u8>) -> nat
    decreases digits.len(),
{
    if digits.len() == 0 {
        0
    } else {
        10 * decimal_value(digits.drop_last()) + digit_value(digits.last())
    }
}

/// Whether `s` is a numeral: at least one byte, and digits only.
pub open spec fn is_decimal(s: Seq<u8>) -> bool {
    s.len() > 0 && forall|i: int| 0 <= i < s.len() ==> is_digit_byte(#[trigger] s[i])
}

/// Ten to the power `n`.
pub open spec fn pow10(n: nat) -> nat
    decreases n,
{
    if n == 0 {
        1
    } else {
        10 * pow10((n - 1) as nat)
    }
}

/// A numeral is worth at least as much as each of its prefixes.
pub proof fn lemma_decimal_prefix(s: Seq<u8>, k: int)
    requires
        0 <= k <= s.len(),
    ensures
        decimal_value(s.subrange(0, k)) <= decimal_value(s),
    decreases s.len() - k,
{
    if k == s.len() {
        assert(s.subrange(0, k) =~= s);
    } else {
        lemma_decimal_prefix(s.drop_last(), k);
        assert(s.drop_last().subrange(0, k) =~= s.subrange(0, k));
    }
}

/// A numeral of `n` digits is worth less than ten to the `n`.
pub proof fn lemma_decimal_bound(s: Seq<u8>)
    ensures
        decimal_value(s) < pow10(s.len()),
    decreases s.len(),
{
    if s.len() > 0 {
        lemma_decimal_bound(s.drop_last());
    }
}

/// Ten to a power grows with the power.
pub proof fn lemma_pow10_monotonic(a: nat, b: nat)
    requires
        a <= b,
    ensures
        pow10(a) <= pow10(b),
    decreases b,
{
    if a < b {
        lemma_pow10_monotonic(a, (b - 1) as nat);
    }
}

/// One more digit at the end makes ten times the value and the digit.
pub proof fn lemma_decimal_push(digits: Seq<u8>, d: u8)
    ensures
        decimal_value(digits.push(d)) == 10 * decimal_value(digits) + digit_value(d),
{
    assert(digits.push(d).drop_last() =~= digits);
}

/// Whether `d` is one of the ten ASCII decimal digits.
pub fn is_digit(d: char) -> (r: bool)
    ensures
        r == ('0' <= d && d <= '9'),
{
    d >= '0' && d <= '9'
}

/// Reads `digits` as an unsigned base-ten numeral.
///
/// The answer is `Some` exactly when `digits` is a numeral whose value a
/// `u64` can hold, and then it is that value. No sign, blank or separator is
/// accepted, and leading zeros are.
pub fn parse_decimal(digits: &[u8]) -> (r: Option<u64>)
    ensures
        r is Some <==> is_decimal(digits@) && decimal_value(digits@) <= u64::MAX,
        r is Some ==> r.unwrap() == decimal_value(digits@),
{
    if digits.len() == 0 {
        return None;
    }
    let mut acc: u64 = 0;
    let mut i: usize = 0;
    while i < digits.len()
        invariant
            0 <= i <= digits.len(),
            acc == decimal_value(digits@.subrange(0, i as int)),
            forall|j: int| 0 <= j < i ==> is_digit_byte(#[trigger] digits@[j]),
        decreases digits.len() - i,
    {
        let b: u8 = digits[i];
        if b < 0x30 || b > 0x39 {
            return None;
        }
        let d: u64 = (b - 0x30) as u64;
        proof {
            let next = digits@.subrange(0, i + 1);
            assert(next.drop_last() =~= digits@.subrange(0, i as int));
            assert(next.last() == b);
            assert(decimal_value(next) == 10 * acc + d);
            lemma_decimal_prefix(digits@, i + 1);
        }
        if acc > (u64::MAX - d) / 10 {
            return None;
        }
        acc = acc * 10 + d;
        i = i + 1;
    }
    proof {
        assert(digits@.subrange(0, i as int) =~= digits@);
    }
    Some(acc)
}

} // verus!
