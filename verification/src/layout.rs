//! How the kernel lays out a pseudo-file, and that what is laid out so is
//! read back as it was written.

use vstd::prelude::*;
use crate::digits::{
    decimal_value, is_decimal, is_digit_byte, lemma_decimal_bound, lemma_pow10_monotonic, pow10,
};
use crate::lines::{after_first_line, first_line, lemma_line_len_is, lines_of, NEWLINE};
use crate::number::{
    after_digits, after_point, after_whole, lemma_digit_run_is, mantissa_digits, stated_amount,
    unsigned_part, KILOBYTE,
};
use crate::smaps::{field_of, is_blank, skip_blanks, tag, value_of, Field, UsageError};
use crate::usage::{
    amount, any_malformed, any_out_of_range, lemma_total_push, malformed, out_of_range, total,
    usage_of, MemUsage, ROLLUP_BIAS,
};

verus! {

/// The numeral of `n` in base ten, without leading zeros.
pub open spec fn decimal_digits(n: nat) -> Seq<u8>
    decreases n,
{
    if n < 10 {
        seq![(0x30 + n) as u8]
    } else {
        decimal_digits(n / 10).push((0x30 + n % 10) as u8)
    }
}

/// `n` blanks.
pub open spec fn blanks(n: nat) -> Seq<u8> {
    Seq::new(n, |i: int| 0x20u8)
}

/// The line that states `kb` kilobytes of field `f`: the tag, filled up
/// with blanks to sixteen columns, the numeral right-aligned in eight
/// columns, and the unit. Meant for a value below a hundred million, which
/// eight columns can hold.
pub open spec fn field_line(f: Field, kb: nat) -> Seq<u8> {
    let digits = decimal_digits(kb);
    tag(f) + blanks((16 - tag(f).len()) as nat) + blanks((8 - digits.len()) as nat) + digits
        + seq![0x20u8, 0x6bu8, 0x42u8]
}

/// The content of a file of `lines`, each ended by a newline.
pub open spec fn file_of(lines: Seq<Seq<u8>>) -> Seq<u8>
    decreases lines.len(),
{
    if lines.len() == 0 {
        Seq::empty()
    } else {
        lines.first() + seq![NEWLINE] + file_of(lines.drop_first())
    }
}

/// The smallest pseudo-file that states the four fields.
pub open spec fn four_fields(pss: nat, swap: nat, clean: nat, dirty: nat) -> Seq<u8> {
    file_of(
        seq![
            field_line(Field::Pss, pss),
            field_line(Field::Swap, swap),
            field_line(Field::PrivateClean, clean),
            field_line(Field::PrivateDirty, dirty),
        ],
    )
}

/// The numeral of a number is a numeral, and is worth the number.
pub proof fn lemma_digits_round_trip(n: nat)
    ensures
        is_decimal(decimal_digits(n)),
        decimal_value(decimal_digits(n)) == n,
    decreases n,
{
    let d = decimal_digits(n);
    if n < 10 {
        assert(d.drop_last() =~= Seq::<u8>::empty());
        assert(decimal_value(d.drop_last()) == 0);
    } else {
        lemma_digits_round_trip(n / 10);
        assert(d.drop_last() =~= decimal_digits(n / 10));
        assert forall|i: int| 0 <= i < d.len() implies is_digit_byte(#[trigger] d[i]) by {
            if i < d.len() - 1 {
                assert(d[i] == decimal_digits(n / 10)[i]);
            }
        }
    }
}

/// A number below ten to the `k` has a numeral of at most `k` digits.
pub proof fn lemma_digits_len(n: nat, k: nat)
    requires
        k >= 1,
        n < pow10(k),
    ensures
        decimal_digits(n).len() <= k,
    decreases k,
{
    reveal_with_fuel(pow10, 2);
    if n >= 10 {
        lemma_digits_len(n / 10, (k - 1) as nat);
    }
}

/// Blanks ahead of a text that opens with no blank are skipped, and no
/// more.
pub proof fn lemma_skip_leading_blanks(n: nat, rest: Seq<u8>)
    requires
        rest.len() > 0 ==> !is_blank(rest[0]),
    ensures
        skip_blanks(blanks(n) + rest) == rest,
    decreases n,
{
    let s = blanks(n) + rest;
    if n == 0 {
        assert(s =~= rest);
    } else {
        assert(s[0] == 0x20u8);
        assert(s.drop_first() =~= blanks((n - 1) as nat) + rest);
        lemma_skip_leading_blanks((n - 1) as nat, rest);
    }
}

/// A plain numeral of at most eight digits states its value in kilobytes.
pub proof fn lemma_plain_numeral(digits: Seq<u8>)
    requires
        is_decimal(digits),
        digits.len() <= 8,
    ensures
        stated_amount(digits) == Ok::<i128, UsageError>(
            (KILOBYTE * decimal_value(digits)) as i128,
        ),
        KILOBYTE * decimal_value(digits) <= u64::MAX,
{
    let none = Seq::<u8>::empty();
    assert(is_digit_byte(digits[0]));
    assert(unsigned_part(digits) =~= digits);
    lemma_digit_run_is(digits, digits.len() as int);
    assert(after_whole(digits) =~= none);
    assert(after_point(digits) =~= none);
    assert(after_digits(digits) =~= none);
    assert(mantissa_digits(digits) =~= digits);
    lemma_decimal_bound(digits);
    lemma_pow10_monotonic(digits.len(), 8);
    assert(pow10(8) == 100_000_000) by {
        reveal_with_fuel(pow10, 9);
    }
    assert(pow10(0) == 1);
    let m = decimal_value(digits);
    assert(KILOBYTE as nat * m * 1 == KILOBYTE * m) by (nonlinear_arith);
}

/// A line laid out for a field is read back as that field and that value,
/// and holds no newline.
pub proof fn lemma_field_line_round_trip(f: Field, kb: nat)
    requires
        kb < 100_000_000,
    ensures
        field_of(field_line(f, kb)) == Some(f),
        value_of(field_line(f, kb)) == Ok::<i128, UsageError>((KILOBYTE * kb) as i128),
        forall|j: int| 0 <= j < field_line(f, kb).len() ==> field_line(f, kb)[j] != NEWLINE,
{
    let digits = decimal_digits(kb);
    let line = field_line(f, kb);
    let name = tag(f);
    lemma_digits_round_trip(kb);
    assert(pow10(8) == 100_000_000) by {
        reveal_with_fuel(pow10, 9);
    }
    lemma_digits_len(kb, 8);
    let pad = blanks((8 - digits.len()) as nat);
    let head = name + blanks((16 - name.len()) as nat);
    assert(head.len() == 16);
    assert(line =~= head + (pad + digits) + seq![0x20u8, 0x6bu8, 0x42u8]);
    assert(line.len() == 27);
    assert(line.subrange(0, name.len() as int) =~= name);
    assert forall|j: int| 0 <= j < name.len() implies line[j] == name[j] by {}
    assert(field_of(line) == Some(f)) by {
        let pss = tag(Field::Pss);
        let swap = tag(Field::Swap);
        let clean = tag(Field::PrivateClean);
        let dirty = tag(Field::PrivateDirty);
        match f {
            Field::Pss => {},
            Field::Swap => {
                assert(line[0] == swap[0]);
                assert(line.subrange(0, pss.len() as int)[0] != pss[0]);
            },
            Field::PrivateClean => {
                assert(line[0] == clean[0] && line[1] == clean[1]);
                assert(line.subrange(0, pss.len() as int)[1] != pss[1]);
                assert(line.subrange(0, swap.len() as int)[0] != swap[0]);
            },
            Field::PrivateDirty => {
                assert(line[0] == dirty[0] && line[1] == dirty[1] && line[8] == dirty[8]);
                assert(line.subrange(0, pss.len() as int)[1] != pss[1]);
                assert(line.subrange(0, swap.len() as int)[0] != swap[0]);
                assert(line.subrange(0, clean.len() as int)[8] != clean[8]);
            },
        }
    }
    assert(line.subrange(16, 24) =~= pad + digits);
    lemma_skip_leading_blanks((8 - digits.len()) as nat, digits);
    lemma_plain_numeral(digits);
    assert forall|j: int| 0 <= j < line.len() implies line[j] != NEWLINE by {
        if j < name.len() {
            assert(line[j] == name[j]);
        } else if j < 16 {
            assert(line[j] == 0x20u8);
        } else if j < 24 {
            let at = j - 16;
            if at < pad.len() {
                assert(line[j] == pad[at]);
            } else {
                assert(line[j] == digits[at - pad.len()]);
                assert(is_digit_byte(digits[at - pad.len()]));
            }
        }
    }
}

/// A file made of lines that hold no newline is split into those lines.
pub proof fn lemma_lines_round_trip(lines: Seq<Seq<u8>>)
    requires
        forall|i: int, j: int|
            0 <= i < lines.len() && 0 <= j < lines[i].len() ==> #[trigger] lines[i][j] != NEWLINE,
    ensures
        lines_of(file_of(lines)) == lines,
    decreases lines.len(),
{
    if lines.len() > 0 {
        let line = lines.first();
        let rest = lines.drop_first();
        let file = file_of(lines);
        assert forall|i: int, j: int| 0 <= i < rest.len() && 0 <= j < rest[i].len() implies #[trigger] rest[i][j]
            != NEWLINE by {
            assert(rest[i] == lines[i + 1]);
            assert(lines[i + 1][j] != NEWLINE);
        }
        lemma_lines_round_trip(rest);
        assert forall|j: int| 0 <= j < line.len() implies file[j] != NEWLINE by {
            assert(file[j] == lines[0][j]);
        }
        assert(file[line.len() as int] == NEWLINE);
        lemma_line_len_is(file, line.len() as int);
        assert(first_line(file) =~= line);
        assert(after_first_line(file) =~= file_of(rest));
        assert(seq![line] + rest =~= lines);
    }
}

/// What the four fields are laid out as is read back exactly: the
/// proportional share and the swapped-out amount as stated, with the half
/// kilobyte for the rollup form, and the shared amount as the share less
/// the two private amounts.
pub proof fn lemma_four_fields_round_trip(pss: nat, swap: nat, clean: nat, dirty: nat, rollup: bool)
    requires
        pss < 100_000_000,
        swap < 100_000_000,
        clean < 100_000_000,
        dirty < 100_000_000,
    ensures
        usage_of(four_fields(pss, swap, clean, dirty), rollup) == Ok::<MemUsage, UsageError>(
            MemUsage {
                pss: (KILOBYTE * pss + if rollup {
                    ROLLUP_BIAS as int
                } else {
                    0
                }) as u64,
                shared: (KILOBYTE * pss + if rollup {
                    ROLLUP_BIAS as int
                } else {
                    0
                } - KILOBYTE * (clean + dirty)) as i64,
                swap: (KILOBYTE * swap) as u64,
            },
        ),
{
    let l1 = field_line(Field::Pss, pss);
    let l2 = field_line(Field::Swap, swap);
    let l3 = field_line(Field::PrivateClean, clean);
    let l4 = field_line(Field::PrivateDirty, dirty);
    let lines = seq![l1, l2, l3, l4];
    lemma_field_line_round_trip(Field::Pss, pss);
    lemma_field_line_round_trip(Field::Swap, swap);
    lemma_field_line_round_trip(Field::PrivateClean, clean);
    lemma_field_line_round_trip(Field::PrivateDirty, dirty);
    lemma_lines_round_trip(lines);
    assert(!any_malformed(lines)) by {
        assert forall|i: int| 0 <= i < lines.len() implies !malformed(#[trigger] lines[i]) by {}
    }
    assert(!any_out_of_range(lines)) by {
        assert forall|i: int| 0 <= i < lines.len() implies !out_of_range(#[trigger] lines[i]) by {}
    }
    let none = Seq::<Seq<u8>>::empty();
    assert(lines =~= none.push(l1).push(l2).push(l3).push(l4));
    assert forall|f: Field|
        total(lines, f) == amount(l1, f) + amount(l2, f) + amount(l3, f) + amount(l4, f) by {
        lemma_total_push(none, l1, f);
        lemma_total_push(none.push(l1), l2, f);
        lemma_total_push(none.push(l1).push(l2), l3, f);
        lemma_total_push(none.push(l1).push(l2).push(l3), l4, f);
    }
    assert(total(lines, Field::Pss) == KILOBYTE * pss);
    assert(total(lines, Field::Swap) == KILOBYTE * swap);
    assert(total(lines, Field::PrivateClean) == KILOBYTE * clean);
    assert(total(lines, Field::PrivateDirty) == KILOBYTE * dirty);
}

} // verus!
