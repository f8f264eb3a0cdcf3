//! From the records of single processes to the report: one record for each
//! command, lightest first, and the grand totals.

use vstd::prelude::*;
use vstd::seq_lib::{
    to_multiset_build, to_multiset_contains, to_multiset_insert, to_multiset_len,
    to_multiset_remove,
};
use crate::merge::{
    group_fits, groups_fit, has_name, is_merge_of, merge_adjacent, merges_to, AggregateError,
};
use crate::sort::sort_stats;
use crate::stat::{
    comes_before, figure, lemma_of_rank_by_name, lemma_sum_concat, lemma_with_name_all,
    lemma_with_name_concat, lemma_with_name_member, lemma_with_name_none, of_rank, sorted_by, sum,
    with_name, CmdStat, Figure, SortKey,
};

verus! {

/// What is reported of a list of processes.
#[derive(Debug)]
pub struct Report {
    /// One record for each command, by ascending proportional share.
    pub stats: Vec<CmdStat>,
    /// The proportional share of all commands together, in bytes.
    pub total_pss: u64,
    /// The swapped-out amount of all commands together, in bytes.
    pub total_swap: u64,
}

/// Whether the two grand totals over `s` can be held.
pub open spec fn totals_fit(s: Seq<CmdStat>) -> bool {
    sum(s, Figure::Pss) <= u64::MAX && sum(s, Figure::Swap) <= u64::MAX
}

/// Whether no two records of `s` bear one name.
pub open spec fn names_differ(s: Seq<CmdStat>) -> bool {
    forall|i: int, j: int|
        0 <= i < j < s.len() ==> (#[trigger] s[i]).name@ != (#[trigger] s[j]).name@
}

/// Whether `out` is the list of the report on the processes `input`.
///
/// It holds one record for each name of `input`, each what the records of
/// that name merge to, taken in the order in which they came. It goes by
/// ascending proportional share, and by name where shares are equal.
pub open spec fn is_listing_of(out: Seq<CmdStat>, input: Seq<CmdStat>) -> bool {
    &&& sorted_by(out, SortKey::Pss)
    &&& names_differ(out)
    &&& forall|i: int|
        0 <= i < out.len() ==> merges_to(with_name(input, (#[trigger] out[i]).name@), out[i])
    &&& forall|j: int| 0 <= j < input.len() ==> has_name(out, (#[trigger] input[j]).name@)
}

/// Whether `report` is the report on the processes `input`: its list is the
/// list for `input`, and its totals are the sums over that list.
pub open spec fn is_report_of(report: Report, input: Seq<CmdStat>) -> bool {
    &&& is_listing_of(report.stats@, input)
    &&& report.total_pss == sum(report.stats@, Figure::Pss)
    &&& report.total_swap == sum(report.stats@, Figure::Swap)
}

/// A record of one list stands somewhere in each list of the same records.
pub proof fn lemma_member(a: Seq<CmdStat>, b: Seq<CmdStat>, i: int) -> (k: int)
    requires
        a.to_multiset() == b.to_multiset(),
        0 <= i < a.len(),
    ensures
        0 <= k < b.len(),
        b[k] == a[i],
{
    to_multiset_contains(a, a[i]);
    to_multiset_contains(b, a[i]);
    assert(a.contains(a[i]));
    choose|k: int| 0 <= k < b.len() && b[k] == a[i]
}

/// A sum does not depend on the order of the records.
pub proof fn lemma_sum_permutation(a: Seq<CmdStat>, b: Seq<CmdStat>, which: Figure)
    requires
        a.to_multiset() == b.to_multiset(),
    ensures
        sum(a, which) == sum(b, which),
    decreases a.len(),
{
    to_multiset_len(a);
    to_multiset_len(b);
    if a.len() > 0 {
        let last = a.len() - 1;
        let k = lemma_member(a, b, last);
        to_multiset_remove(a, last);
        to_multiset_remove(b, k);
        assert(a.remove(last) =~= a.drop_last());
        lemma_sum_permutation(a.drop_last(), b.remove(k), which);
        let front = b.subrange(0, k);
        let back = b.subrange(k + 1, b.len() as int);
        assert(b =~= front.push(b[k]) + back);
        assert(b.remove(k) =~= front + back);
        lemma_sum_concat(front.push(b[k]), back, which);
        lemma_sum_concat(front, back, which);
        assert(front.push(b[k]).drop_last() =~= front);
    }
}

/// The records of one name are the same records in whatever order the list
/// stands.
pub proof fn lemma_group_permutation(a: Seq<CmdStat>, b: Seq<CmdStat>, name: Seq<char>)
    requires
        a.to_multiset() == b.to_multiset(),
    ensures
        with_name(a, name).to_multiset() == with_name(b, name).to_multiset(),
    decreases a.len(),
{
    to_multiset_len(a);
    to_multiset_len(b);
    if a.len() == 0 {
        assert(b =~= Seq::<CmdStat>::empty());
    } else {
        let last = a.len() - 1;
        let x = a[last];
        let k = lemma_member(a, b, last);
        to_multiset_remove(a, last);
        to_multiset_remove(b, k);
        assert(a.remove(last) =~= a.drop_last());
        lemma_group_permutation(a.drop_last(), b.remove(k), name);
        let front = b.subrange(0, k);
        let back = b.subrange(k + 1, b.len() as int);
        let one = seq![x];
        assert(b =~= (front + one) + back);
        assert(b.remove(k) =~= front + back);
        lemma_with_name_concat(front + one, back, name);
        lemma_with_name_concat(front, one, name);
        lemma_with_name_concat(front, back, name);
        let f = with_name(front, name);
        let g = with_name(back, name);
        if x.name@ == name {
            lemma_with_name_all(one, name);
            assert((f + one) + g =~= (f + g).insert(f.len() as int, x));
            to_multiset_insert(f + g, f.len() as int, x);
            to_multiset_build(with_name(a.drop_last(), name), x);
        } else {
            lemma_with_name_none(one, name);
            assert((f + Seq::<CmdStat>::empty()) + g =~= f + g);
        }
    }
}

/// The figures of a merged record do not depend on the order in which the
/// processes came: the sum of each figure over the records of one name, and
/// their number, are those of any other order.
pub proof fn lemma_group_figures_permutation(
    a: Seq<CmdStat>,
    b: Seq<CmdStat>,
    name: Seq<char>,
    which: Figure,
)
    requires
        a.to_multiset() == b.to_multiset(),
    ensures
        sum(with_name(a, name), which) == sum(with_name(b, name), which),
        with_name(a, name).len() == with_name(b, name).len(),
{
    lemma_group_permutation(a, b, name);
    lemma_sum_permutation(with_name(a, name), with_name(b, name), which);
    to_multiset_len(with_name(a, name));
    to_multiset_len(with_name(b, name));
}

/// Where every record that came in stands for one process, the count of
/// each record of the report is the number of processes of its name.
pub proof fn lemma_counts_of_single_processes(report: Report, input: Seq<CmdStat>)
    requires
        is_report_of(report, input),
        forall|j: int| 0 <= j < input.len() ==> (#[trigger] input[j]).count == 1,
    ensures
        forall|i: int|
            0 <= i < report.stats@.len() ==> (#[trigger] report.stats@[i]).count == with_name(
                input,
                report.stats@[i].name@,
            ).len(),
{
    let out = report.stats@;
    assert forall|i: int| 0 <= i < out.len() implies (#[trigger] out[i]).count == with_name(
        input,
        out[i].name@,
    ).len() by {
        let group = with_name(input, out[i].name@);
        assert(merges_to(group, out[i]));
        let j = lemma_with_name_member(input, out[i].name@, 0);
        assert(input[j].count == 1);
    }
}

/// A list ordered by share does not go down in share.
pub proof fn lemma_shares_ascend(s: Seq<CmdStat>)
    requires
        sorted_by(s, SortKey::Pss),
    ensures
        forall|i: int, j: int| 0 <= i < j < s.len() ==> (#[trigger] s[i]).pss <= (#[trigger] s[j]).pss,
{
    assert forall|i: int, j: int| 0 <= i < j < s.len() implies (#[trigger] s[i]).pss <= (
    #[trigger] s[j]).pss by {
        assert(comes_before(SortKey::Pss, s[i], s[j]));
    }
}

/// A sort by name leaves the records of each name as they came.
pub proof fn lemma_groups_kept(sorted: Seq<CmdStat>, input: Seq<CmdStat>, x: CmdStat)
    requires
        of_rank(sorted, SortKey::Name, x) == of_rank(input, SortKey::Name, x),
    ensures
        with_name(sorted, x.name@) == with_name(input, x.name@),
{
    lemma_of_rank_by_name(sorted, x);
    lemma_of_rank_by_name(input, x);
}

/// Whether every group fits does not depend on the order, where the
/// records of each name keep theirs.
proof fn lemma_groups_fit_kept(sorted: Seq<CmdStat>, input: Seq<CmdStat>)
    requires
        sorted.to_multiset() == input.to_multiset(),
        forall|x: CmdStat| #[trigger]
            of_rank(sorted, SortKey::Name, x) == of_rank(input, SortKey::Name, x),
    ensures
        groups_fit(sorted) == groups_fit(input),
{
    if groups_fit(input) {
        assert forall|i: int| 0 <= i < sorted.len() implies group_fits(
            with_name(sorted, (#[trigger] sorted[i]).name@),
        ) by {
            let k = lemma_member(sorted, input, i);
            lemma_groups_kept(sorted, input, sorted[i]);
            assert(group_fits(with_name(input, input[k].name@)));
        }
    }
    if groups_fit(sorted) {
        assert forall|i: int| 0 <= i < input.len() implies group_fits(
            with_name(input, (#[trigger] input[i]).name@),
        ) by {
            let k = lemma_member(input, sorted, i);
            lemma_groups_kept(sorted, input, input[i]);
            assert(group_fits(with_name(sorted, sorted[k].name@)));
        }
    }
}

/// Putting the merged records in another order keeps them one to a name,
/// each what the records of its name merge to.
proof fn lemma_merge_reordered(
    merged: Seq<CmdStat>,
    ordered: Seq<CmdStat>,
    sorted: Seq<CmdStat>,
    input: Seq<CmdStat>,
)
    requires
        is_merge_of(merged, sorted),
        ordered.to_multiset() == merged.to_multiset(),
        sorted.to_multiset() == input.to_multiset(),
        forall|x: CmdStat| #[trigger]
            of_rank(sorted, SortKey::Name, x) == of_rank(input, SortKey::Name, x),
    ensures
        names_differ(ordered),
        forall|i: int|
            0 <= i < ordered.len() ==> merges_to(
                with_name(input, (#[trigger] ordered[i]).name@),
                ordered[i],
            ),
        forall|j: int| 0 <= j < input.len() ==> has_name(ordered, (#[trigger] input[j]).name@),
{
    assert(merged.no_duplicates()) by {
        assert forall|i: int, j: int|
            0 <= i < merged.len() && 0 <= j < merged.len() && i != j implies merged[i]
            != merged[j] by {
            if i < j {
                assert(merged[i].name@ != merged[j].name@);
            } else {
                assert(merged[j].name@ != merged[i].name@);
            }
        }
    }
    merged.lemma_multiset_has_no_duplicates();
    ordered.lemma_multiset_has_no_duplicates_conv();
    assert forall|i: int, j: int| 0 <= i < j < ordered.len() implies (#[trigger] ordered[i]).name@
        != (#[trigger] ordered[j]).name@ by {
        let a = lemma_member(ordered, merged, i);
        let b = lemma_member(ordered, merged, j);
        if a < b {
            assert(merged[a].name@ != merged[b].name@);
        } else if b < a {
            assert(merged[b].name@ != merged[a].name@);
        } else {
            assert(ordered[i] == ordered[j]);
        }
    }
    assert forall|i: int| 0 <= i < ordered.len() implies merges_to(
        with_name(input, (#[trigger] ordered[i]).name@),
        ordered[i],
    ) by {
        let a = lemma_member(ordered, merged, i);
        assert(merges_to(with_name(sorted, merged[a].name@), merged[a]));
        lemma_groups_kept(sorted, input, ordered[i]);
    }
    assert forall|j: int| 0 <= j < input.len() implies has_name(
        ordered,
        (#[trigger] input[j]).name@,
    ) by {
        let a = lemma_member(input, sorted, j);
        assert(has_name(merged, sorted[a].name@));
        let k = choose|k: int|
            0 <= k < merged.len() && (#[trigger] merged[k]).name@ == sorted[a].name@;
        let i = lemma_member(merged, ordered, k);
        assert(ordered[i].name@ == input[j].name@);
    }
}

/// The sum over the first `k + 1` records is that over the first `k` and
/// the record at `k`.
proof fn lemma_sum_step(s: Seq<CmdStat>, k: int, which: Figure)
    requires
        0 <= k < s.len(),
    ensures
        sum(s.subrange(0, k + 1), which) == sum(s.subrange(0, k), which) + figure(s[k], which),
{
    assert(s.subrange(0, k + 1).drop_last() =~= s.subrange(0, k));
}

/// The grand totals of proportional share and of swap over `stats`, in this
/// order. The answer is an error exactly when one of them is beyond what a
/// total can hold.
pub fn totals(stats: &Vec<CmdStat>) -> (r: Result<(u64, u64), AggregateError>)
    ensures
        r is Ok <==> totals_fit(stats@),
        r is Ok ==> r.unwrap().0 == sum(stats@, Figure::Pss) && r.unwrap().1 == sum(
            stats@,
            Figure::Swap,
        ),
{
    let n: usize = stats.len();
    let mut pss: u128 = 0;
    let mut swap: u128 = 0;
    let mut k: usize = 0;
    assert(stats@.subrange(0, 0) =~= Seq::<CmdStat>::empty());
    while k < n
        invariant
            n == stats@.len(),
            0 <= k <= n,
            pss == sum(stats@.subrange(0, k as int), Figure::Pss),
            swap == sum(stats@.subrange(0, k as int), Figure::Swap),
            pss <= k * 0xffff_ffff_ffff_ffff,
            swap <= k * 0xffff_ffff_ffff_ffff,
        decreases n - k,
    {
        proof {
            lemma_sum_step(stats@, k as int, Figure::Pss);
            lemma_sum_step(stats@, k as int, Figure::Swap);
        }
        pss = pss + stats[k].pss as u128;
        swap = swap + stats[k].swap as u128;
        k = k + 1;
    }
    assert(stats@.subrange(0, n as int) =~= stats@);
    if pss > u64::MAX as u128 || swap > u64::MAX as u128 {
        return Err(AggregateError::TooLarge);
    }
    Ok((pss as u64, swap as u64))
}

/// Sums up the records of single processes into the report.
///
/// The records are put in order of name, runs of one name are merged, the
/// merged records are put in order of proportional share, and the two grand
/// totals are taken. The answer is an error exactly when a merged figure or
/// a total is beyond what can be held. The totals are also the sums over
/// the records that came in.
pub fn aggregate(stats: Vec<CmdStat>) -> (r: Result<Report, AggregateError>)
    ensures
        r is Ok <==> groups_fit(stats@) && totals_fit(stats@),
        r is Ok ==> is_report_of(r.unwrap(), stats@),
        r is Ok ==> r.unwrap().total_pss == sum(stats@, Figure::Pss),
        r is Ok ==> r.unwrap().total_swap == sum(stats@, Figure::Swap),
{
    let ghost input = stats@;
    let sorted = sort_stats(stats, SortKey::Name);
    proof {
        lemma_groups_fit_kept(sorted@, input);
        lemma_sum_permutation(sorted@, input, Figure::Pss);
        lemma_sum_permutation(sorted@, input, Figure::Swap);
    }
    let merged = match merge_adjacent(&sorted) {
        Ok(merged) => merged,
        Err(e) => {
            return Err(e);
        },
    };
    let ghost merged_view = merged@;
    let ordered = sort_stats(merged, SortKey::Pss);
    proof {
        lemma_merge_reordered(merged_view, ordered@, sorted@, input);
        lemma_sum_permutation(ordered@, merged_view, Figure::Pss);
        lemma_sum_permutation(ordered@, merged_view, Figure::Swap);
        assert(sum(merged_view, Figure::Pss) == sum(sorted@, Figure::Pss));
        assert(sum(merged_view, Figure::Swap) == sum(sorted@, Figure::Swap));
    }
    match totals(&ordered) {
        Ok((total_pss, total_swap)) => Ok(Report { stats: ordered, total_pss, total_swap }),
        Err(e) => Err(e),
    }
}

} // verus!
