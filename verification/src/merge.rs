//! Merging the records of equally named processes.

use vstd::prelude::*;
use crate::names::{lemma_name_antisymmetric, name_le};
use crate::stat::{
    figure, lemma_sum_concat, lemma_with_name_all, lemma_with_name_concat, lemma_with_name_none,
    sorted_by, sum, with_name, CmdStat, Figure, SortKey,
};

verus! {

/// Why a list of records could not be summed up.
#[derive(Clone, Copy, Debug, PartialEq, Eq, Structural)]
pub enum AggregateError {
    /// A sum is beyond what a record or a total can hold.
    TooLarge,
}

/// Whether `r` is what the records `g` of one name merge to: the first of
/// them, with each figure summed over all of them and its count raised by
/// one for each of the others.
pub open spec fn merges_to(g: Seq<CmdStat>, r: CmdStat) -> bool {
    &&& g.len() > 0
    &&& r.name@ == g[0].name@
    &&& r.pid == g[0].pid
    &&& r.pss == sum(g, Figure::Pss)
    &&& r.shared == sum(g, Figure::Shared)
    &&& r.swap == sum(g, Figure::Swap)
    &&& r.count == g[0].count + g.len() - 1
}

/// Whether a record can hold what the records `g` of one name merge to.
pub open spec fn group_fits(g: Seq<CmdStat>) -> bool {
    g.len() > 0 ==> {
        &&& sum(g, Figure::Pss) <= u64::MAX
        &&& i64::MIN <= sum(g, Figure::Shared) <= i64::MAX
        &&& sum(g, Figure::Swap) <= u64::MAX
        &&& g[0].count + g.len() - 1 <= u64::MAX
    }
}

/// Whether the records of each name in `s` merge to what a record can hold.
pub open spec fn groups_fit(s: Seq<CmdStat>) -> bool {
    forall|i: int| 0 <= i < s.len() ==> group_fits(with_name(s, (#[trigger] s[i]).name@))
}

/// Whether the names of `m` go strictly upwards.
pub open spec fn names_ascend(m: Seq<CmdStat>) -> bool {
    forall|i: int, j: int|
        0 <= i < j < m.len() ==> name_le((#[trigger] m[i]).name@, (#[trigger] m[j]).name@)
            && m[i].name@ != m[j].name@
}

/// Whether a record of `m` bears the name `name`.
pub open spec fn has_name(m: Seq<CmdStat>, name: Seq<char>) -> bool {
    exists|k: int| 0 <= k < m.len() && (#[trigger] m[k]).name@ == name
}

/// Whether `m` is the merged form of `s`: one record for each name of `s`,
/// names strictly upwards, each record what the records of its name merge
/// to.
pub open spec fn is_merge_of(m: Seq<CmdStat>, s: Seq<CmdStat>) -> bool {
    &&& names_ascend(m)
    &&& forall|i: int|
        0 <= i < m.len() ==> merges_to(with_name(s, (#[trigger] m[i]).name@), m[i])
    &&& forall|j: int| 0 <= j < s.len() ==> has_name(m, (#[trigger] s[j]).name@)
}

/// What holds of the merged records `out` once the first `i` records of `s`
/// have been seen.
spec fn merged_prefix(out: Seq<CmdStat>, s: Seq<CmdStat>, i: int) -> bool {
    &&& names_ascend(out)
    &&& forall|k: int|
        0 <= k < out.len() ==> merges_to(with_name(s, (#[trigger] out[k]).name@), out[k])
    &&& forall|k: int|
        0 <= k < out.len() ==> has_name(s.subrange(0, i), (#[trigger] out[k]).name@)
    &&& forall|a: int| 0 <= a < i ==> has_name(out, (#[trigger] s[a]).name@)
    &&& forall|a: int| 0 <= a < i ==> group_fits(with_name(s, (#[trigger] s[a]).name@))
    &&& forall|which: Figure| #[trigger] sum(out, which) == sum(s.subrange(0, i), which)
}

/// Whether no record ahead of place `i` shares its name with one at or
/// behind it.
pub open spec fn names_apart(s: Seq<CmdStat>, i: int) -> bool {
    forall|a: int, b: int|
        0 <= a < i <= b < s.len() ==> (#[trigger] s[a]).name@ != (#[trigger] s[b]).name@
}

/// In a list ordered by name, a run of one name that ends where the name
/// changes holds all the records of that name.
proof fn lemma_run_is_group(s: Seq<CmdStat>, i: int, j: int)
    requires
        sorted_by(s, SortKey::Name),
        0 <= i < j <= s.len(),
        names_apart(s, i),
        forall|t: int| i <= t < j ==> (#[trigger] s[t]).name@ == s[i].name@,
        j < s.len() ==> s[j].name@ != s[i].name@,
    ensures
        names_apart(s, j),
        with_name(s, s[i].name@) == s.subrange(i, j),
{
    let name = s[i].name@;
    assert forall|b: int| j <= b < s.len() implies (#[trigger] s[b]).name@ != name by {
        if b > j && s[b].name@ == name {
            assert(name_le(s[i].name@, s[j].name@));
            assert(name_le(s[j].name@, s[b].name@));
            lemma_name_antisymmetric(s[i].name@, s[j].name@);
        }
    }
    assert forall|a: int, b: int| 0 <= a < j <= b < s.len() implies (#[trigger] s[a]).name@ != (
    #[trigger] s[b]).name@ by {
        if a < i {
            assert(s[a].name@ != s[b].name@);
        }
    }
    let front = s.subrange(0, i);
    let run = s.subrange(i, j);
    let back = s.subrange(j, s.len() as int);
    assert(s =~= (front + run) + back);
    lemma_with_name_concat(front + run, back, name);
    lemma_with_name_concat(front, run, name);
    assert forall|a: int| 0 <= a < front.len() implies (#[trigger] front[a]).name@ != name by {
        assert(front[a] == s[a]);
        assert(s[a].name@ != s[i].name@);
    }
    lemma_with_name_none(front, name);
    assert forall|b: int| 0 <= b < back.len() implies (#[trigger] back[b]).name@ != name by {
        assert(back[b] == s[b + j]);
    }
    lemma_with_name_none(back, name);
    assert forall|t: int| 0 <= t < run.len() implies (#[trigger] run[t]).name@ == name by {
        assert(run[t] == s[t + i]);
    }
    lemma_with_name_all(run, name);
    assert((Seq::<CmdStat>::empty() + run) + Seq::<CmdStat>::empty() =~= run);
}

/// The sum over a stretch grows by the record that the stretch grows by.
proof fn lemma_sum_extend(s: Seq<CmdStat>, i: int, j: int, which: Figure)
    requires
        0 <= i <= j < s.len(),
    ensures
        sum(s.subrange(i, j + 1), which) == sum(s.subrange(i, j), which) + figure(s[j], which),
{
    assert(s.subrange(i, j + 1).drop_last() =~= s.subrange(i, j));
}

/// Taking in the run from `i` to `j` as the record `merged` keeps what holds
/// of the merged records.
proof fn lemma_merge_step(out: Seq<CmdStat>, s: Seq<CmdStat>, i: int, j: int, merged: CmdStat)
    requires
        sorted_by(s, SortKey::Name),
        0 <= i < j <= s.len(),
        merged_prefix(out, s, i),
        forall|t: int| i <= t < j ==> (#[trigger] s[t]).name@ == s[i].name@,
        with_name(s, s[i].name@) == s.subrange(i, j),
        forall|k: int| 0 <= k < out.len() ==> (#[trigger] out[k]).name@ != s[i].name@,
        merges_to(s.subrange(i, j), merged),
    ensures
        merged_prefix(out.push(merged), s, j),
{
    let after = out.push(merged);
    let group = s.subrange(i, j);
    assert(group[0] == s[i]);
    assert forall|a: int, b: int| 0 <= a < b < after.len() implies name_le(
        (#[trigger] after[a]).name@,
        (#[trigger] after[b]).name@,
    ) && after[a].name@ != after[b].name@ by {
        if b == out.len() {
            assert(after[a] == out[a]);
            let front = s.subrange(0, i);
            assert(has_name(front, out[a].name@));
            let w = choose|w: int| 0 <= w < front.len() && (#[trigger] front[w]).name@ == out[a].name@;
            assert(front[w] == s[w]);
            assert(name_le(s[w].name@, s[i].name@));
        } else {
            assert(after[a] == out[a] && after[b] == out[b]);
        }
    }
    assert forall|k: int| 0 <= k < after.len() implies merges_to(
        with_name(s, (#[trigger] after[k]).name@),
        after[k],
    ) by {
        if k < out.len() {
            assert(after[k] == out[k]);
        }
    }
    assert forall|k: int| 0 <= k < after.len() implies has_name(
        s.subrange(0, j),
        (#[trigger] after[k]).name@,
    ) by {
        let wide = s.subrange(0, j);
        if k < out.len() {
            assert(after[k] == out[k]);
            let front = s.subrange(0, i);
            assert(has_name(front, out[k].name@));
            let w = choose|w: int| 0 <= w < front.len() && (#[trigger] front[w]).name@ == out[k].name@;
            assert(wide[w] == front[w]);
        } else {
            assert(wide[i] == s[i]);
        }
    }
    assert forall|a: int| 0 <= a < j implies has_name(after, (#[trigger] s[a]).name@) by {
        if a < i {
            assert(has_name(out, s[a].name@));
            let w = choose|w: int| 0 <= w < out.len() && (#[trigger] out[w]).name@ == s[a].name@;
            assert(after[w] == out[w]);
        } else {
            assert(after[out.len() as int] == merged);
        }
    }
    assert forall|a: int| 0 <= a < j implies group_fits(
        with_name(s, (#[trigger] s[a]).name@),
    ) by {
        if a >= i {
            assert(s[a].name@ == s[i].name@);
        }
    }
    assert forall|which: Figure| #[trigger]
        sum(after, which) == sum(s.subrange(0, j), which) by {
        assert(after.drop_last() =~= out);
        assert(after.last() == merged);
        assert(figure(merged, which) == sum(group, which));
        assert(sum(out, which) == sum(s.subrange(0, i), which));
        lemma_sum_concat(s.subrange(0, i), group, which);
        assert(s.subrange(0, i) + group =~= s.subrange(0, j));
    }
}

/// Merges each run of equally named records into one record.
///
/// The list must be ordered by name, so that the records of one name stand
/// side by side. Each run is replaced by its first record, with the figures
/// of the others added to it and its count raised by one for each of them.
/// The answer is an error exactly when one of these sums is beyond what a
/// record can hold.
pub fn merge_adjacent(stats: &Vec<CmdStat>) -> (r: Result<Vec<CmdStat>, AggregateError>)
    requires
        sorted_by(stats@, SortKey::Name),
    ensures
        r is Ok <==> groups_fit(stats@),
        r is Ok ==> is_merge_of(r.unwrap()@, stats@),
        r is Ok ==> forall|which: Figure| #[trigger]
            sum(r.unwrap()@, which) == sum(stats@, which),
{
    let n: usize = stats.len();
    let mut out: Vec<CmdStat> = Vec::new();
    let mut i: usize = 0;
    assert(stats@.subrange(0, 0) =~= Seq::<CmdStat>::empty());
    while i < n
        invariant
            n == stats@.len(),
            0 <= i <= n,
            sorted_by(stats@, SortKey::Name),
            names_apart(stats@, i as int),
            merged_prefix(out@, stats@, i as int),
        decreases n - i,
    {
        let first: &CmdStat = &stats[i];
        let mut pss: u128 = first.pss as u128;
        let mut shared: i128 = first.shared as i128;
        let mut swap: u128 = first.swap as u128;
        let mut j: usize = i + 1;
        proof {
            assert(stats@.subrange(i as int, i as int) =~= Seq::<CmdStat>::empty());
            lemma_sum_extend(stats@, i as int, i as int, Figure::Pss);
            lemma_sum_extend(stats@, i as int, i as int, Figure::Shared);
            lemma_sum_extend(stats@, i as int, i as int, Figure::Swap);
        }
        while j < n && stats[j].name == first.name
            invariant
                n == stats@.len(),
                i < j <= n,
                *first == stats@[i as int],
                forall|t: int| i <= t < j ==> (#[trigger] stats@[t]).name@ == stats@[i as int].name@,
                pss == sum(stats@.subrange(i as int, j as int), Figure::Pss),
                shared == sum(stats@.subrange(i as int, j as int), Figure::Shared),
                swap == sum(stats@.subrange(i as int, j as int), Figure::Swap),
                pss <= (j - i) * 0xffff_ffff_ffff_ffff,
                swap <= (j - i) * 0xffff_ffff_ffff_ffff,
                -(j - i) * 0x8000_0000_0000_0000 <= shared <= (j - i) * 0x8000_0000_0000_0000,
            decreases n - j,
        {
            proof {
                lemma_sum_extend(stats@, i as int, j as int, Figure::Pss);
                lemma_sum_extend(stats@, i as int, j as int, Figure::Shared);
                lemma_sum_extend(stats@, i as int, j as int, Figure::Swap);
            }
            pss = pss + stats[j].pss as u128;
            shared = shared + stats[j].shared as i128;
            swap = swap + stats[j].swap as u128;
            j = j + 1;
        }
        let count: u128 = first.count as u128 + (j - i - 1) as u128;
        let ghost group = stats@.subrange(i as int, j as int);
        proof {
            lemma_run_is_group(stats@, i as int, j as int);
            assert(group[0] == stats@[i as int]);
        }
        if pss > u64::MAX as u128 || swap > u64::MAX as u128 || shared > i64::MAX as i128 || shared
            < i64::MIN as i128 || count > u64::MAX as u128 {
            assert(!group_fits(with_name(stats@, stats@[i as int].name@)));
            return Err(AggregateError::TooLarge);
        }
        let merged = CmdStat {
            name: first.name.clone(),
            pid: first.pid,
            pss: pss as u64,
            shared: shared as i64,
            swap: swap as u64,
            count: count as u64,
        };
        proof {
            assert forall|k: int| 0 <= k < out@.len() implies (#[trigger] out@[k]).name@
                != stats@[i as int].name@ by {
                let front = stats@.subrange(0, i as int);
                assert(has_name(front, out@[k].name@));
                let w = choose|w: int|
                    0 <= w < front.len() && (#[trigger] front[w]).name@ == out@[k].name@;
                assert(front[w] == stats@[w]);
                assert(stats@[w].name@ != stats@[i as int].name@);
            }
            lemma_merge_step(out@, stats@, i as int, j as int, merged);
        }
        out.push(merged);
        i = j;
    }
    assert(stats@.subrange(0, n as int) =~= stats@);
    Ok(out)
}

} // verus!
