//! Putting a list of records in order.

use vstd::prelude::*;
use vstd::seq_lib::to_multiset_insert;
use crate::stat::{
    comes_before, equal_rank, lemma_of_rank_concat, lemma_of_rank_none, lemma_order_total,
    lemma_order_transitive, of_rank, sorted_by, CmdStat, SortKey,
};

verus! {

/// Putting `x` at place `p` of an ordered list keeps the list ordered, where
/// `x` may stand before none of the records ahead of `p` and may stand
/// before the record at `p`.
proof fn lemma_insert_keeps_order(s: Seq<CmdStat>, key: SortKey, p: int, x: CmdStat)
    requires
        sorted_by(s, key),
        0 <= p <= s.len(),
        forall|j: int| 0 <= j < p ==> !comes_before(key, x, #[trigger] s[j]),
        p < s.len() ==> comes_before(key, x, s[p]),
    ensures
        sorted_by(s.insert(p, x), key),
{
    let t = s.insert(p, x);
    assert forall|i: int, j: int| 0 <= i < j < t.len() implies comes_before(
        key,
        #[trigger] t[i],
        #[trigger] t[j],
    ) by {
        if j < p {
            assert(t[i] == s[i] && t[j] == s[j]);
        } else if j == p {
            assert(t[i] == s[i]);
            lemma_order_total(key, x, s[i]);
        } else if i < p {
            assert(t[i] == s[i] && t[j] == s[j - 1]);
        } else if i == p {
            assert(t[j] == s[j - 1]);
            if j - 1 > p {
                lemma_order_transitive(key, x, s[p], s[j - 1]);
            }
        } else {
            assert(t[i] == s[i - 1] && t[j] == s[j - 1]);
        }
    }
}

/// Putting `x` at place `p` of an ordered list, behind the records that it
/// may not stand before, puts it ahead of the records of its own rank.
proof fn lemma_insert_keeps_ranks(s: Seq<CmdStat>, key: SortKey, p: int, x: CmdStat, y: CmdStat)
    requires
        0 <= p <= s.len(),
        forall|j: int| 0 <= j < p ==> !comes_before(key, x, #[trigger] s[j]),
    ensures
        of_rank(s.insert(p, x), key, y) == of_rank(seq![x] + s, key, y),
{
    let front = s.subrange(0, p);
    let back = s.subrange(p, s.len() as int);
    let one = seq![x];
    assert(s.insert(p, x) =~= (front + one) + back);
    assert(seq![x] + s =~= (one + front) + back);
    lemma_of_rank_concat(front + one, back, key, y);
    lemma_of_rank_concat(one + front, back, key, y);
    lemma_of_rank_concat(front, one, key, y);
    lemma_of_rank_concat(one, front, key, y);
    if equal_rank(key, x, y) {
        assert forall|j: int| 0 <= j < front.len() implies !equal_rank(
            key,
            #[trigger] front[j],
            y,
        ) by {
            assert(front[j] == s[j]);
            if equal_rank(key, s[j], y) {
                lemma_order_transitive(key, x, y, s[j]);
            }
        }
        lemma_of_rank_none(front, key, y);
        assert(of_rank(front, key, y) + of_rank(one, key, y) =~= of_rank(one, key, y) + of_rank(
            front,
            key,
            y,
        ));
    } else {
        lemma_of_rank_none(one, key, y);
        assert(of_rank(front, key, y) + of_rank(one, key, y) =~= of_rank(one, key, y) + of_rank(
            front,
            key,
            y,
        ));
    }
}

/// Puts `stats` in the order of `key`.
///
/// The result holds the same records, ordered by `key`, and the records that
/// `key` ranks alike keep the order in which they came.
pub fn sort_stats(stats: Vec<CmdStat>, key: SortKey) -> (out: Vec<CmdStat>)
    ensures
        sorted_by(out@, key),
        out@.to_multiset() == stats@.to_multiset(),
        forall|x: CmdStat| #[trigger] of_rank(out@, key, x) == of_rank(stats@, key, x),
{
    let ghost input = stats@;
    let mut rest = stats;
    let mut out: Vec<CmdStat> = Vec::new();
    assert(input.subrange(input.len() as int, input.len() as int) =~= Seq::<CmdStat>::empty());
    while rest.len() > 0
        invariant
            rest@.len() <= input.len(),
            rest@ == input.subrange(0, rest@.len() as int),
            sorted_by(out@, key),
            out@.to_multiset() == input.subrange(
                rest@.len() as int,
                input.len() as int,
            ).to_multiset(),
            forall|x: CmdStat| #[trigger]
                of_rank(out@, key, x) == of_rank(
                    input.subrange(rest@.len() as int, input.len() as int),
                    key,
                    x,
                ),
        decreases rest@.len(),
    {
        let ghost tail = input.subrange(rest@.len() as int, input.len() as int);
        let item = rest.pop().unwrap();
        let mut p: usize = 0;
        while p < out.len() && !item.precedes(&out[p], key)
            invariant
                0 <= p <= out@.len(),
                forall|j: int| 0 <= j < p ==> !comes_before(key, item, #[trigger] out@[j]),
            decreases out@.len() - p,
        {
            p = p + 1;
        }
        proof {
            let grown = input.subrange(rest@.len() as int, input.len() as int);
            assert(grown =~= seq![item] + tail);
            assert(grown =~= tail.insert(0, item));
            to_multiset_insert(tail, 0, item);
            to_multiset_insert(out@, p as int, item);
            lemma_insert_keeps_order(out@, key, p as int, item);
            assert forall|x: CmdStat| #[trigger]
                of_rank(out@.insert(p as int, item), key, x) == of_rank(grown, key, x) by {
                lemma_insert_keeps_ranks(out@, key, p as int, item, x);
                lemma_of_rank_concat(seq![item], out@, key, x);
                lemma_of_rank_concat(seq![item], tail, key, x);
            }
        }
        out.insert(p, item);
    }
    assert(input.subrange(0, input.len() as int) =~= input);
    out
}

} // verus!
