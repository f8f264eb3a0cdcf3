//! The memory figures of one process, summed over the lines of its
//! pseudo-file.

use vstd::prelude::*;
use crate::lines::{lemma_line_len_le, lines_of, Lines};
use crate::smaps::{
    classify, field_of, parse_line, value_of, Field, UsageError, VALUE_END,
};

verus! {

/// What the rollup form under-reports of the proportional share: half a
/// kilobyte, in bytes.
pub const ROLLUP_BIAS: u64 = 512;

/// The memory figures of one process, in bytes.
#[derive(Clone, Copy, Debug, PartialEq, Eq, Structural)]
pub struct MemUsage {
    /// The proportional share of the resident pages.
    pub pss: u64,
    /// The proportional share less the private pages. The rollup correction
    /// leaves room for a negative figure, which is kept as it is.
    pub shared: i64,
    /// What has been swapped out.
    pub swap: u64,
}

/// Whether `line` reports one of the four fields and states no value.
pub open spec fn malformed(line: Seq<u8>) -> bool {
    field_of(line) is Some && value_of(line) == Err::<i128, UsageError>(UsageError::BadValue)
}

/// Whether `line` reports one of the four fields and states an amount
/// beyond 64 bits.
pub open spec fn out_of_range(line: Seq<u8>) -> bool {
    field_of(line) is Some && value_of(line) == Err::<i128, UsageError>(UsageError::OutOfRange)
}

/// Whether one of `lines` is malformed.
pub open spec fn any_malformed(lines: Seq<Seq<u8>>) -> bool {
    exists|i: int| 0 <= i < lines.len() && malformed(#[trigger] lines[i])
}

/// Whether one of `lines` states an amount out of range.
pub open spec fn any_out_of_range(lines: Seq<Seq<u8>>) -> bool {
    exists|i: int| 0 <= i < lines.len() && out_of_range(#[trigger] lines[i])
}

/// The bytes that `line` adds to field `f`: its amount where it reports
/// that field and states one, and nothing otherwise. An amount behind a
/// minus takes away.
pub open spec fn amount(line: Seq<u8>, f: Field) -> int {
    if field_of(line) == Some(f) && value_of(line) is Ok {
        value_of(line).unwrap() as int
    } else {
        0
    }
}

/// The bytes of field `f` over all of `lines`.
pub open spec fn total(lines: Seq<Seq<u8>>, f: Field) -> int
    decreases lines.len(),
{
    if lines.len() == 0 {
        0
    } else {
        total(lines.drop_last(), f) + amount(lines.last(), f)
    }
}

/// The proportional share in bytes. The rollup form gets its correction
/// once, however many lines state a share.
pub open spec fn pss_bytes(lines: Seq<Seq<u8>>, rollup: bool) -> int {
    total(lines, Field::Pss) + if rollup {
        ROLLUP_BIAS as int
    } else {
        0
    }
}

/// The swapped-out amount in bytes.
pub open spec fn swap_bytes(lines: Seq<Seq<u8>>) -> int {
    total(lines, Field::Swap)
}

/// The private pages, clean and dirty, in bytes.
pub open spec fn private_bytes(lines: Seq<Seq<u8>>) -> int {
    total(lines, Field::PrivateClean) + total(lines, Field::PrivateDirty)
}

/// The shared amount in bytes: the proportional share less the private
/// pages, not clamped at zero.
pub open spec fn shared_bytes(lines: Seq<Seq<u8>>, rollup: bool) -> int {
    pss_bytes(lines, rollup) - private_bytes(lines)
}

/// Whether a record can hold the three figures: the proportional share and
/// the swapped-out amount are not negative, and all three are within the
/// range of their fields.
pub open spec fn figures_fit(lines: Seq<Seq<u8>>, rollup: bool) -> bool {
    &&& 0 <= pss_bytes(lines, rollup) <= u64::MAX
    &&& 0 <= swap_bytes(lines) <= u64::MAX
    &&& i64::MIN <= shared_bytes(lines, rollup) <= i64::MAX
}

/// The figures that `lines` state. A malformed line spoils the whole, where
/// it may stand; amounts and figures out of range are refused after that.
pub open spec fn usage_of_lines(lines: Seq<Seq<u8>>, rollup: bool) -> Result<
    MemUsage,
    UsageError,
> {
    if any_malformed(lines) {
        Err(UsageError::BadValue)
    } else if any_out_of_range(lines) || !figures_fit(lines, rollup) {
        Err(UsageError::OutOfRange)
    } else {
        Ok(
            MemUsage {
                pss: pss_bytes(lines, rollup) as u64,
                shared: shared_bytes(lines, rollup) as i64,
                swap: swap_bytes(lines) as u64,
            },
        )
    }
}

/// The figures that the content of a pseudo-file states.
pub open spec fn usage_of(content: Seq<u8>, rollup: bool) -> Result<MemUsage, UsageError> {
    usage_of_lines(lines_of(content), rollup)
}

/// The figures of a process for which the rollup form, the detailed form,
/// both or neither could be read: those of the rollup form where it is there
/// and yields figures, else those of the detailed form on the same terms.
pub open spec fn usage_with_fallback(
    rollup: Option<Seq<u8>>,
    detailed: Option<Seq<u8>>,
) -> Option<MemUsage> {
    if rollup is Some && usage_of(rollup.unwrap(), true) is Ok {
        Some(usage_of(rollup.unwrap(), true).unwrap())
    } else if detailed is Some && usage_of(detailed.unwrap(), false) is Ok {
        Some(usage_of(detailed.unwrap(), false).unwrap())
    } else {
        None
    }
}

/// One more line adds its amount to the total.
pub proof fn lemma_total_push(lines: Seq<Seq<u8>>, line: Seq<u8>, f: Field)
    ensures
        total(lines.push(line), f) == total(lines, f) + amount(line, f),
{
    assert(lines.push(line).drop_last() =~= lines);
}

/// One more line is out of range, or one of those before it was.
pub proof fn lemma_any_out_of_range_push(lines: Seq<Seq<u8>>, line: Seq<u8>)
    ensures
        any_out_of_range(lines.push(line)) == (any_out_of_range(lines) || out_of_range(line)),
{
    let grown = lines.push(line);
    if any_out_of_range(lines) {
        let i = choose|i: int| 0 <= i < lines.len() && out_of_range(#[trigger] lines[i]);
        assert(grown[i] == lines[i]);
    }
    if out_of_range(line) {
        assert(grown[lines.len() as int] == line);
    }
    if any_out_of_range(grown) {
        let i = choose|i: int| 0 <= i < grown.len() && out_of_range(#[trigger] grown[i]);
        if i < lines.len() {
            assert(grown[i] == lines[i]);
        }
    }
}

/// Where the rollup form is missing or yields no figures, and the detailed
/// form yields figures, the process has those of the detailed form, whose
/// proportional share is the plain sum of the stated shares.
pub proof fn lemma_fallback_to_detailed(rollup: Option<Seq<u8>>, detailed: Seq<u8>)
    requires
        rollup is None || usage_of(rollup.unwrap(), true) is Err,
        usage_of(detailed, false) is Ok,
    ensures
        usage_with_fallback(rollup, Some(detailed)) == Some(usage_of(detailed, false).unwrap()),
        usage_of(detailed, false).unwrap().pss == total(lines_of(detailed), Field::Pss),
{
}

/// Sums the figures that `content` states, line by line.
///
/// `content` is what was read from `smaps_rollup` where `use_rollup` holds,
/// and from `smaps` where it does not. Lines of other fields are passed
/// over.
pub fn collect_memory_usage(content: &[u8], use_rollup: bool) -> (r: Result<MemUsage, UsageError>)
    ensures
        r == usage_of(content@, use_rollup),
{
    let size: usize = content.len();
    let mut lines = Lines::new(content);
    let mut pss: i128 = 0;
    let mut swap: i128 = 0;
    let mut private: i128 = 0;
    let mut beyond: bool = false;
    let ghost mut seen: Seq<Seq<u8>> = Seq::empty();
    let ghost mut counted: nat = 0;
    loop
        invariant
            seen + lines_of(lines@) == lines_of(content@),
            VALUE_END * counted + lines@.len() <= size,
            !any_malformed(seen),
            beyond == any_out_of_range(seen),
            pss == total(seen, Field::Pss),
            swap == total(seen, Field::Swap),
            private == total(seen, Field::PrivateClean) + total(seen, Field::PrivateDirty),
            -(counted * 0xffff_ffff_ffff_ffff) <= pss <= counted * 0xffff_ffff_ffff_ffff,
            -(counted * 0xffff_ffff_ffff_ffff) <= swap <= counted * 0xffff_ffff_ffff_ffff,
            -(counted * 0xffff_ffff_ffff_ffff) <= private <= counted * 0xffff_ffff_ffff_ffff,
        ensures
            seen == lines_of(content@),
        decreases lines@.len(),
    {
        let ghost before = lines@;
        match lines.next() {
            None => {
                assert(seen + Seq::<Seq<u8>>::empty() =~= seen);
                break ;
            },
            Some(line) => {
                proof {
                    lemma_line_len_le(before);
                    assert(lines_of(before) =~= seq![line@] + lines_of(lines@));
                    assert(seen.push(line@) + lines_of(lines@) =~= seen + lines_of(before));
                    assert((seen + lines_of(before))[seen.len() as int] == line@);
                    assert(line@.len() + lines@.len() <= before.len());
                    lemma_total_push(seen, line@, Field::Pss);
                    lemma_total_push(seen, line@, Field::Swap);
                    lemma_total_push(seen, line@, Field::PrivateClean);
                    lemma_total_push(seen, line@, Field::PrivateDirty);
                    lemma_any_out_of_range_push(seen, line@);
                }
                match classify(line) {
                    None => {},
                    Some(field) => {
                        match parse_line(line) {
                            Err(UsageError::BadValue) => {
                                assert(malformed(lines_of(content@)[seen.len() as int]));
                                return Err(UsageError::BadValue);
                            },
                            Err(UsageError::OutOfRange) => {
                                beyond = true;
                            },
                            Ok(bytes) => {
                                proof {
                                    assert(line@.len() >= VALUE_END);
                                    counted = counted + 1;
                                }
                                match field {
                                    Field::Pss => {
                                        pss = pss + bytes;
                                    },
                                    Field::Swap => {
                                        swap = swap + bytes;
                                    },
                                    Field::PrivateClean => {
                                        private = private + bytes;
                                    },
                                    Field::PrivateDirty => {
                                        private = private + bytes;
                                    },
                                }
                            },
                        }
                    },
                }
                proof {
                    let grown = seen.push(line@);
                    assert forall|i: int| 0 <= i < grown.len() implies !malformed(
                        #[trigger] grown[i],
                    ) by {
                        if i < seen.len() {
                            assert(grown[i] == seen[i]);
                        }
                    }
                    seen = grown;
                }
            },
        }
    }
    if beyond {
        return Err(UsageError::OutOfRange);
    }
    let bias: i128 = if use_rollup {
        ROLLUP_BIAS as i128
    } else {
        0
    };
    let pss_total: i128 = pss + bias;
    let shared_total: i128 = pss_total - private;
    if pss_total < 0 || pss_total > u64::MAX as i128 || swap < 0 || swap > u64::MAX as i128
        || shared_total < i64::MIN as i128 || shared_total > i64::MAX as i128 {
        return Err(UsageError::OutOfRange);
    }
    Ok(MemUsage { pss: pss_total as u64, shared: shared_total as i64, swap: swap as u64 })
}

/// The figures of a process, from whichever form yields them.
///
/// Each argument is the content of one pseudo-file, or `None` where it
/// could not be read. The rollup form is tried first; where it is missing
/// or yields no figures, the detailed form is tried; where that fails too,
/// the process has no figures.
pub fn memory_usage(rollup: Option<&[u8]>, detailed: Option<&[u8]>) -> (r: Option<MemUsage>)
    ensures
        r == usage_with_fallback(
            match rollup {
                Some(c) => Some(c@),
                None => None,
            },
            match detailed {
                Some(c) => Some(c@),
                None => None,
            },
        ),
{
    if let Some(content) = rollup {
        if let Ok(usage) = collect_memory_usage(content, true) {
            return Some(usage);
        }
    }
    if let Some(content) = detailed {
        if let Ok(usage) = collect_memory_usage(content, false) {
            return Some(usage);
        }
    }
    None
}

} // verus!
