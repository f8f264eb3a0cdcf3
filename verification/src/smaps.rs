//! Reading the memory figures of one process from its `smaps` or
//! `smaps_rollup` pseudo-file.
//!
//! The kernel writes one field per line, the field's name padded to sixteen
//! columns and its value, in kilobytes, right-aligned in the eight columns
//! that follow. Amounts are kept here as whole numbers of bytes, 1024 to the
//! kilobyte, so that the half-kilobyte correction of the rollup form is
//! exact; a value with a fraction is rounded down to a whole byte.

use vstd::prelude::*;
use crate::bytes::starts_with;
use crate::number::{parse_numeral, stated_amount};

verus! {

/// The fields that the accounting reads.
#[derive(Clone, Copy, Debug, PartialEq, Eq, Structural)]
pub enum Field {
    /// `Pss:`, the proportional share of the resident pages.
    Pss,
    /// `Swap:`, what has been swapped out.
    Swap,
    /// `Private_Clean:`, unshared pages that match their backing store.
    PrivateClean,
    /// `Private_Dirty:`, unshared pages that were written to.
    PrivateDirty,
}

/// The column at which a field's value starts.
pub const VALUE_START: usize = 16;

/// The column just past a field's value.
pub const VALUE_END: usize = 24;

/// The literal text that opens a line of field `f`.
pub open spec fn tag(f: Field) -> Seq<u8> {
    match f {
        Field::Pss => seq![0x50u8, 0x73u8, 0x73u8, 0x3au8],
        Field::Swap => seq![0x53u8, 0x77u8, 0x61u8, 0x70u8, 0x3au8],
        Field::PrivateClean => seq![
            0x50u8, 0x72u8, 0x69u8, 0x76u8, 0x61u8, 0x74u8, 0x65u8, 0x5fu8, 0x43u8, 0x6cu8,
            0x65u8, 0x61u8, 0x6eu8, 0x3au8,
        ],
        Field::PrivateDirty => seq![
            0x50u8, 0x72u8, 0x69u8, 0x76u8, 0x61u8, 0x74u8, 0x65u8, 0x5fu8, 0x44u8, 0x69u8,
            0x72u8, 0x74u8, 0x79u8, 0x3au8,
        ],
    }
}

/// The field that `line` reports, if it opens with one of the four tags.
pub open spec fn field_of(line: Seq<u8>) -> Option<Field> {
    if tag(Field::Pss).is_prefix_of(line) {
        Some(Field::Pss)
    } else if tag(Field::Swap).is_prefix_of(line) {
        Some(Field::Swap)
    } else if tag(Field::PrivateClean).is_prefix_of(line) {
        Some(Field::PrivateClean)
    } else if tag(Field::PrivateDirty).is_prefix_of(line) {
        Some(Field::PrivateDirty)
    } else {
        None
    }
}

/// Whether `b` is ASCII white space: a blank, or one of tab, line feed,
/// vertical tab, form feed and carriage return.
pub open spec fn is_blank(b: u8) -> bool {
    b == 0x20 || 0x09 <= b <= 0x0d
}

/// `s` without the white space that it opens with.
pub open spec fn skip_blanks(s: Seq<u8>) -> Seq<u8>
    decreases s.len(),
{
    if s.len() > 0 && is_blank(s[0]) {
        skip_blanks(s.drop_first())
    } else {
        s
    }
}

/// The value columns of `line`, without leading white space. Meaningful for
/// a line that reaches the end of the value columns.
pub open spec fn value_text(line: Seq<u8>) -> Seq<u8> {
    skip_blanks(line.subrange(VALUE_START as int, VALUE_END as int))
}

/// What `line` states in its value columns, in bytes: the amount of the
/// numeral that stands there behind optional white space, with nothing
/// after it. A line that does not reach the end of the value columns states
/// no value.
pub open spec fn value_of(line: Seq<u8>) -> Result<i128, UsageError> {
    if line.len() >= VALUE_END {
        stated_amount(value_text(line))
    } else {
        Err(UsageError::BadValue)
    }
}

/// Why the figures of a pseudo-file could not be had.
#[derive(Clone, Copy, Debug, PartialEq, Eq, Structural)]
pub enum UsageError {
    /// A line of one of the four fields states no value.
    BadValue,
    /// An amount is beyond 64 bits, or a figure is negative where it must
    /// not be or beyond what the record can hold.
    OutOfRange,
}

/// Tells which of the four fields `line` reports, by its opening text alone.
pub fn classify(line: &[u8]) -> (f: Option<Field>)
    ensures
        f == field_of(line@),
{
    let pss: [u8; 4] = [0x50, 0x73, 0x73, 0x3a];
    let swap: [u8; 5] = [0x53, 0x77, 0x61, 0x70, 0x3a];
    let clean: [u8; 14] = [
        0x50, 0x72, 0x69, 0x76, 0x61, 0x74, 0x65, 0x5f, 0x43, 0x6c, 0x65, 0x61, 0x6e, 0x3a,
    ];
    let dirty: [u8; 14] = [
        0x50, 0x72, 0x69, 0x76, 0x61, 0x74, 0x65, 0x5f, 0x44, 0x69, 0x72, 0x74, 0x79, 0x3a,
    ];
    proof {
        assert(pss@ =~= tag(Field::Pss));
        assert(swap@ =~= tag(Field::Swap));
        assert(clean@ =~= tag(Field::PrivateClean));
        assert(dirty@ =~= tag(Field::PrivateDirty));
    }
    if starts_with(line, pss.as_slice()) {
        Some(Field::Pss)
    } else if starts_with(line, swap.as_slice()) {
        Some(Field::Swap)
    } else if starts_with(line, clean.as_slice()) {
        Some(Field::PrivateClean)
    } else if starts_with(line, dirty.as_slice()) {
        Some(Field::PrivateDirty)
    } else {
        None
    }
}

/// Reads the bytes that `line` states in its value columns, whatever field
/// the line reports. The amount is negative behind a minus.
pub fn parse_line(line: &[u8]) -> (r: Result<i128, UsageError>)
    ensures
        r == value_of(line@),
{
    if line.len() < VALUE_END {
        return Err(UsageError::BadValue);
    }
    let window: &[u8] = &line[VALUE_START..VALUE_END];
    let mut i: usize = 0;
    assert(window@.subrange(0, 8) =~= window@);
    while i < window.len() && (window[i] == 0x20 || (0x09 <= window[i] && window[i] <= 0x0d))
        invariant
            window@.len() == 8,
            0 <= i <= window@.len(),
            skip_blanks(window@) == skip_blanks(window@.subrange(i as int, 8)),
        decreases window.len() - i,
    {
        proof {
            let rest = window@.subrange(i as int, 8);
            assert(rest.drop_first() =~= window@.subrange(i + 1, 8));
        }
        i = i + 1;
    }
    let text: &[u8] = &window[i..window.len()];
    proof {
        assert(skip_blanks(text@) == text@);
        assert(text@ == value_text(line@));
    }
    parse_numeral(text)
}

} // verus!
