//! The record kept for each command, and the measures taken over lists of
//! records.

use vstd::prelude::*;
use crate::bytes::{lemma_lex_reflexive, lemma_lex_total, lemma_lex_transitive};
use crate::names::{lemma_name_antisymmetric, name_le, name_precedes};
use crate::usage::MemUsage;
use vstd::utf8::encode_utf8;

verus! {

/// The memory figures of one command: of one process, or of several
/// processes of one name merged into one record.
#[derive(Debug)]
pub struct CmdStat {
    /// The display name, by which records are merged.
    pub name: String,
    /// The process that the record was first made for.
    pub pid: i32,
    /// The proportional share of the resident pages, in bytes.
    pub pss: u64,
    /// The shared amount in bytes, which may be negative.
    pub shared: i64,
    /// What has been swapped out, in bytes.
    pub swap: u64,
    /// How many processes the record stands for.
    pub count: u64,
}

/// The three figures of a record that are summed.
#[derive(Clone, Copy, Debug, PartialEq, Eq, Structural)]
pub enum Figure {
    /// The proportional share.
    Pss,
    /// The shared amount.
    Shared,
    /// The swapped-out amount.
    Swap,
}

/// The orders in which a list of records can be put.
#[derive(Clone, Copy, Debug, PartialEq, Eq, Structural)]
pub enum SortKey {
    /// By name, as the bytes of the names compare.
    Name,
    /// By ascending proportional share; records of equal share by name.
    Pss,
}

/// One figure of a record.
pub open spec fn figure(r: CmdStat, which: Figure) -> int {
    match which {
        Figure::Pss => r.pss as int,
        Figure::Shared => r.shared as int,
        Figure::Swap => r.swap as int,
    }
}

/// The sum of one figure over a list of records.
pub open spec fn sum(s: Seq<CmdStat>, which: Figure) -> int
    decreases s.len(),
{
    if s.len() == 0 {
        0
    } else {
        sum(s.drop_last(), which) + figure(s.last(), which)
    }
}

/// The records of `s` that bear the name `name`, in the order of `s`.
pub open spec fn with_name(s: Seq<CmdStat>, name: Seq<char>) -> Seq<CmdStat>
    decreases s.len(),
{
    if s.len() == 0 {
        Seq::empty()
    } else if s.last().name@ == name {
        with_name(s.drop_last(), name).push(s.last())
    } else {
        with_name(s.drop_last(), name)
    }
}

/// Whether `a` may stand before `b` in a list ordered by `key`.
pub open spec fn comes_before(key: SortKey, a: CmdStat, b: CmdStat) -> bool {
    match key {
        SortKey::Name => name_le(a.name@, b.name@),
        SortKey::Pss => a.pss < b.pss || (a.pss == b.pss && name_le(a.name@, b.name@)),
    }
}

/// Whether `key` ranks `a` and `b` alike.
pub open spec fn equal_rank(key: SortKey, a: CmdStat, b: CmdStat) -> bool {
    comes_before(key, a, b) && comes_before(key, b, a)
}

/// Whether `s` is ordered by `key`.
pub open spec fn sorted_by(s: Seq<CmdStat>, key: SortKey) -> bool {
    forall|i: int, j: int| 0 <= i < j < s.len() ==> comes_before(key, #[trigger] s[i], #[trigger] s[j])
}

/// The records of `s` that `key` ranks like `x`, in the order of `s`.
pub open spec fn of_rank(s: Seq<CmdStat>, key: SortKey, x: CmdStat) -> Seq<CmdStat>
    decreases s.len(),
{
    if s.len() == 0 {
        Seq::empty()
    } else if equal_rank(key, s.last(), x) {
        of_rank(s.drop_last(), key, x).push(s.last())
    } else {
        of_rank(s.drop_last(), key, x)
    }
}

/// Of two records one may stand before the other.
pub proof fn lemma_order_total(key: SortKey, a: CmdStat, b: CmdStat)
    ensures
        comes_before(key, a, b) || comes_before(key, b, a),
{
    lemma_lex_total(encode_utf8(a.name@), encode_utf8(b.name@));
}

/// The order passes along a chain.
pub proof fn lemma_order_transitive(key: SortKey, a: CmdStat, b: CmdStat, c: CmdStat)
    requires
        comes_before(key, a, b),
        comes_before(key, b, c),
    ensures
        comes_before(key, a, c),
{
    if name_le(a.name@, b.name@) && name_le(b.name@, c.name@) {
        lemma_lex_transitive(encode_utf8(a.name@), encode_utf8(b.name@), encode_utf8(c.name@));
    }
}

/// By name, two records rank alike exactly when they bear one name.
pub proof fn lemma_equal_rank_by_name(a: CmdStat, b: CmdStat)
    ensures
        equal_rank(SortKey::Name, a, b) <==> a.name@ == b.name@,
{
    if equal_rank(SortKey::Name, a, b) {
        lemma_name_antisymmetric(a.name@, b.name@);
    }
    if a.name@ == b.name@ {
        lemma_lex_reflexive(encode_utf8(a.name@));
    }
}

/// The sum over two lists joined is the sum of their sums.
pub proof fn lemma_sum_concat(a: Seq<CmdStat>, b: Seq<CmdStat>, which: Figure)
    ensures
        sum(a + b, which) == sum(a, which) + sum(b, which),
    decreases b.len(),
{
    if b.len() == 0 {
        assert(a + b =~= a);
    } else {
        lemma_sum_concat(a, b.drop_last(), which);
        assert((a + b).drop_last() =~= a + b.drop_last());
    }
}

/// The records of one name in two lists joined are those of the first list,
/// then those of the second.
pub proof fn lemma_with_name_concat(a: Seq<CmdStat>, b: Seq<CmdStat>, name: Seq<char>)
    ensures
        with_name(a + b, name) == with_name(a, name) + with_name(b, name),
    decreases b.len(),
{
    if b.len() == 0 {
        assert(a + b =~= a);
        assert(with_name(a, name) + with_name(b, name) =~= with_name(a, name));
    } else {
        lemma_with_name_concat(a, b.drop_last(), name);
        assert((a + b).drop_last() =~= a + b.drop_last());
        assert(with_name(a + b, name) =~= with_name(a, name) + with_name(b, name));
    }
}

/// A list whose records all bear the name `name` is its own selection.
pub proof fn lemma_with_name_all(s: Seq<CmdStat>, name: Seq<char>)
    requires
        forall|i: int| 0 <= i < s.len() ==> (#[trigger] s[i]).name@ == name,
    ensures
        with_name(s, name) == s,
    decreases s.len(),
{
    if s.len() > 0 {
        lemma_with_name_all(s.drop_last(), name);
        assert(s.drop_last().push(s.last()) =~= s);
    }
}

/// A list none of whose records bears the name `name` has an empty
/// selection.
pub proof fn lemma_with_name_none(s: Seq<CmdStat>, name: Seq<char>)
    requires
        forall|i: int| 0 <= i < s.len() ==> (#[trigger] s[i]).name@ != name,
    ensures
        with_name(s, name) == Seq::<CmdStat>::empty(),
    decreases s.len(),
{
    if s.len() > 0 {
        lemma_with_name_none(s.drop_last(), name);
    }
}

/// Each record of a selection by name stands in the list and bears the
/// name.
pub proof fn lemma_with_name_member(s: Seq<CmdStat>, name: Seq<char>, k: int) -> (j: int)
    requires
        0 <= k < with_name(s, name).len(),
    ensures
        0 <= j < s.len(),
        s[j] == with_name(s, name)[k],
        s[j].name@ == name,
    decreases s.len(),
{
    if s.last().name@ == name && k == with_name(s.drop_last(), name).len() {
        s.len() - 1
    } else {
        lemma_with_name_member(s.drop_last(), name, k)
    }
}

/// By name, the records that rank like `x` are those that bear its name.
pub proof fn lemma_of_rank_by_name(s: Seq<CmdStat>, x: CmdStat)
    ensures
        of_rank(s, SortKey::Name, x) == with_name(s, x.name@),
    decreases s.len(),
{
    if s.len() > 0 {
        lemma_of_rank_by_name(s.drop_last(), x);
        lemma_equal_rank_by_name(s.last(), x);
    }
}

/// The records of one rank in two lists joined are those of the first list,
/// then those of the second.
pub proof fn lemma_of_rank_concat(a: Seq<CmdStat>, b: Seq<CmdStat>, key: SortKey, x: CmdStat)
    ensures
        of_rank(a + b, key, x) == of_rank(a, key, x) + of_rank(b, key, x),
    decreases b.len(),
{
    if b.len() == 0 {
        assert(a + b =~= a);
        assert(of_rank(a, key, x) + of_rank(b, key, x) =~= of_rank(a, key, x));
    } else {
        lemma_of_rank_concat(a, b.drop_last(), key, x);
        assert((a + b).drop_last() =~= a + b.drop_last());
        assert(of_rank(a + b, key, x) =~= of_rank(a, key, x) + of_rank(b, key, x));
    }
}

/// A list that holds no record of the rank of `x` has an empty selection.
pub proof fn lemma_of_rank_none(s: Seq<CmdStat>, key: SortKey, x: CmdStat)
    requires
        forall|i: int| 0 <= i < s.len() ==> !equal_rank(key, #[trigger] s[i], x),
    ensures
        of_rank(s, key, x) == Seq::<CmdStat>::empty(),
    decreases s.len(),
{
    if s.len() > 0 {
        lemma_of_rank_none(s.drop_last(), key, x);
    }
}

impl CmdStat {
    /// The record of a single process.
    pub fn new(name: String, pid: i32, usage: MemUsage) -> (stat: CmdStat)
        ensures
            stat.name == name,
            stat.pid == pid,
            stat.pss == usage.pss,
            stat.shared == usage.shared,
            stat.swap == usage.swap,
            stat.count == 1,
    {
        CmdStat { name, pid, pss: usage.pss, shared: usage.shared, swap: usage.swap, count: 1 }
    }

    /// Whether this record may stand before `other` in a list ordered by
    /// `key`.
    pub fn precedes(&self, other: &CmdStat, key: SortKey) -> (r: bool)
        ensures
            r == comes_before(key, *self, *other),
    {
        match key {
            SortKey::Name => name_precedes(self.name.as_str(), other.name.as_str()),
            SortKey::Pss => {
                self.pss < other.pss || (self.pss == other.pss && name_precedes(
                    self.name.as_str(),
                    other.name.as_str(),
                ))
            },
        }
    }
}

} // verus!
