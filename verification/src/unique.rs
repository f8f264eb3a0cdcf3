//! There is but one report on a list of processes.

use vstd::prelude::*;
use crate::aggregate::{is_listing_of, is_report_of, Report};
use crate::merge::{has_name, merges_to};
use crate::names::lemma_name_antisymmetric;
use crate::stat::{
    comes_before, figure, lemma_with_name_member, sum, with_name, CmdStat, Figure, SortKey,
};

verus! {

/// Whether two records agree in every field.
pub open spec fn same_record(a: CmdStat, b: CmdStat) -> bool {
    &&& a.name@ == b.name@
    &&& a.pid == b.pid
    &&& a.pss == b.pss
    &&& a.shared == b.shared
    &&& a.swap == b.swap
    &&& a.count == b.count
}

/// The place in `b` of the record that bears the name of the record at
/// place `i` of `a`.
spec fn partner(a: Seq<CmdStat>, b: Seq<CmdStat>, i: int) -> int {
    choose|k: int| 0 <= k < b.len() && (#[trigger] b[k]).name@ == a[i].name@
}

/// Each record of one list for `input` has its like in any other.
proof fn lemma_partner(a: Seq<CmdStat>, b: Seq<CmdStat>, input: Seq<CmdStat>, i: int)
    requires
        is_listing_of(a, input),
        is_listing_of(b, input),
        0 <= i < a.len(),
    ensures
        0 <= partner(a, b, i) < b.len(),
        same_record(a[i], b[partner(a, b, i)]),
{
    let name = a[i].name@;
    assert(merges_to(with_name(input, name), a[i]));
    let j = lemma_with_name_member(input, name, 0);
    assert(has_name(b, input[j].name@));
    let k = partner(a, b, i);
    assert(merges_to(with_name(input, b[k].name@), b[k]));
}

/// The like of a later record stands later.
proof fn lemma_partner_ascends(
    a: Seq<CmdStat>,
    b: Seq<CmdStat>,
    input: Seq<CmdStat>,
    x: int,
    y: int,
)
    requires
        is_listing_of(a, input),
        is_listing_of(b, input),
        0 <= x < y < a.len(),
    ensures
        partner(a, b, x) < partner(a, b, y),
{
    lemma_partner(a, b, input, x);
    lemma_partner(a, b, input, y);
    let p = partner(a, b, x);
    let q = partner(a, b, y);
    assert(comes_before(SortKey::Pss, a[x], a[y]));
    assert(a[x].name@ != a[y].name@);
    if q < p {
        assert(comes_before(SortKey::Pss, b[q], b[p]));
        lemma_name_antisymmetric(a[x].name@, a[y].name@);
    }
}

/// Places that go strictly upwards start no lower than they count.
proof fn lemma_ascent_from_below(m: Seq<int>, i: int)
    requires
        forall|x: int, y: int| 0 <= x < y < m.len() ==> #[trigger] m[x] < #[trigger] m[y],
        forall|x: int| 0 <= x < m.len() ==> 0 <= #[trigger] m[x],
        0 <= i < m.len(),
    ensures
        i <= m[i],
    decreases i,
{
    if i > 0 {
        lemma_ascent_from_below(m, i - 1);
    }
}

/// Places that go strictly upwards end no higher than they count.
proof fn lemma_ascent_from_above(m: Seq<int>, limit: int, i: int)
    requires
        forall|x: int, y: int| 0 <= x < y < m.len() ==> #[trigger] m[x] < #[trigger] m[y],
        forall|x: int| 0 <= x < m.len() ==> #[trigger] m[x] < limit,
        0 <= i < m.len(),
    ensures
        m[i] <= limit - (m.len() - i),
    decreases m.len() - i,
{
    if i + 1 < m.len() {
        lemma_ascent_from_above(m, limit, i + 1);
    }
}

/// One list for `input` is no longer than another.
proof fn lemma_no_longer(a: Seq<CmdStat>, b: Seq<CmdStat>, input: Seq<CmdStat>)
    requires
        is_listing_of(a, input),
        is_listing_of(b, input),
    ensures
        a.len() <= b.len(),
{
    if a.len() > 0 {
        let m = Seq::new(a.len(), |i: int| partner(a, b, i));
        assert forall|x: int, y: int| 0 <= x < y < m.len() implies #[trigger] m[x] < #[trigger] m[y] by {
            lemma_partner_ascends(a, b, input, x, y);
        }
        assert forall|x: int| 0 <= x < m.len() implies 0 <= #[trigger] m[x] by {
            lemma_partner(a, b, input, x);
        }
        lemma_ascent_from_below(m, a.len() - 1);
        lemma_partner(a, b, input, a.len() - 1);
    }
}

/// Two lists for one `input` agree record by record.
pub proof fn lemma_listing_unique(a: Seq<CmdStat>, b: Seq<CmdStat>, input: Seq<CmdStat>)
    requires
        is_listing_of(a, input),
        is_listing_of(b, input),
    ensures
        a.len() == b.len(),
        forall|i: int| 0 <= i < a.len() ==> same_record(#[trigger] a[i], b[i]),
{
    lemma_no_longer(a, b, input);
    lemma_no_longer(b, a, input);
    let m = Seq::new(a.len(), |i: int| partner(a, b, i));
    assert forall|x: int, y: int| 0 <= x < y < m.len() implies #[trigger] m[x] < #[trigger] m[y] by {
        lemma_partner_ascends(a, b, input, x, y);
    }
    assert forall|x: int| 0 <= x < m.len() implies 0 <= #[trigger] m[x] < b.len() by {
        lemma_partner(a, b, input, x);
    }
    assert forall|i: int| 0 <= i < a.len() implies same_record(#[trigger] a[i], b[i]) by {
        lemma_ascent_from_below(m, i);
        lemma_ascent_from_above(m, b.len() as int, i);
        lemma_partner(a, b, input, i);
        assert(m[i] == i);
    }
}

/// Lists that agree record by record have equal sums.
proof fn lemma_sum_of_same_records(a: Seq<CmdStat>, b: Seq<CmdStat>, which: Figure)
    requires
        a.len() == b.len(),
        forall|i: int| 0 <= i < a.len() ==> same_record(#[trigger] a[i], b[i]),
    ensures
        sum(a, which) == sum(b, which),
    decreases a.len(),
{
    if a.len() > 0 {
        let a0 = a.drop_last();
        let b0 = b.drop_last();
        assert forall|i: int| 0 <= i < a0.len() implies same_record(#[trigger] a0[i], b0[i]) by {
            assert(a0[i] == a[i] && b0[i] == b[i]);
            assert(same_record(a[i], b[i]));
        }
        lemma_sum_of_same_records(a0, b0, which);
        assert(same_record(a[a.len() - 1], b[a.len() - 1]));
        assert(figure(a.last(), which) == figure(b.last(), which));
    }
}

/// Two reports on one list of processes agree in every record and in both
/// totals: what a report must be leaves nothing open.
pub proof fn lemma_report_unique(first: Report, second: Report, input: Seq<CmdStat>)
    requires
        is_report_of(first, input),
        is_report_of(second, input),
    ensures
        first.stats@.len() == second.stats@.len(),
        forall|i: int|
            0 <= i < first.stats@.len() ==> same_record(
                #[trigger] first.stats@[i],
                second.stats@[i],
            ),
        first.total_pss == second.total_pss,
        first.total_swap == second.total_swap,
{
    lemma_listing_unique(first.stats@, second.stats@, input);
    lemma_sum_of_same_records(first.stats@, second.stats@, Figure::Pss);
    lemma_sum_of_same_records(first.stats@, second.stats@, Figure::Swap);
}

} // verus!
