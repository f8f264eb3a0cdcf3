//! From what could be read of each process to its record.

use vstd::prelude::*;
use crate::identity::{display_name, proc_name};
use crate::stat::CmdStat;
use crate::usage::{memory_usage, usage_with_fallback, MemUsage};

verus! {

/// What was read of one process. A part that could not be read, because the
/// process had exited or access was denied, is `None`.
#[derive(Debug)]
pub struct ProcSnapshot {
    /// The process identifier.
    pub pid: i32,
    /// The path that the `exe` link resolves to.
    pub exe: Option<String>,
    /// The command line.
    pub cmdline: Option<String>,
    /// The content of `smaps_rollup`.
    pub rollup: Option<Vec<u8>>,
    /// The content of `smaps`.
    pub detailed: Option<Vec<u8>>,
}

/// The bytes of a pseudo-file that may be missing.
pub open spec fn bytes_of(content: Option<Vec<u8>>) -> Option<Seq<u8>> {
    match content {
        Some(c) => Some(c@),
        None => None,
    }
}

/// The memory figures that `snapshot` yields, if any.
pub open spec fn usage_in(snapshot: ProcSnapshot) -> Option<MemUsage> {
    usage_with_fallback(bytes_of(snapshot.rollup), bytes_of(snapshot.detailed))
}

/// The display name that `snapshot` yields: `None` where a part of the
/// identity could not be read, or where the two parts give no name.
pub open spec fn name_in(snapshot: ProcSnapshot) -> Option<Seq<char>> {
    if snapshot.exe is Some && snapshot.cmdline is Some {
        display_name(snapshot.exe.unwrap()@, snapshot.cmdline.unwrap()@)
    } else {
        None
    }
}

/// Whether `snapshot` yields a record: it yields a display name, and one of
/// the two pseudo-files yields figures.
pub open spec fn is_readable(snapshot: ProcSnapshot) -> bool {
    name_in(snapshot) is Some && usage_in(snapshot) is Some
}

/// Whether `stat` is the record of the single process in `snapshot`.
pub open spec fn describes(stat: CmdStat, snapshot: ProcSnapshot) -> bool {
    &&& is_readable(snapshot)
    &&& stat.name@ == name_in(snapshot).unwrap()
    &&& stat.pid == snapshot.pid
    &&& stat.pss == usage_in(snapshot).unwrap().pss
    &&& stat.shared == usage_in(snapshot).unwrap().shared
    &&& stat.swap == usage_in(snapshot).unwrap().swap
    &&& stat.count == 1
}

/// Those of `snapshots` that yield a record, in their order.
pub open spec fn readable(snapshots: Seq<ProcSnapshot>) -> Seq<ProcSnapshot>
    decreases snapshots.len(),
{
    if snapshots.len() == 0 {
        Seq::empty()
    } else if is_readable(snapshots.last()) {
        readable(snapshots.drop_last()).push(snapshots.last())
    } else {
        readable(snapshots.drop_last())
    }
}

/// The processes that yield a record among two lists joined are those of
/// the first list, then those of the second.
pub proof fn lemma_readable_concat(a: Seq<ProcSnapshot>, b: Seq<ProcSnapshot>)
    ensures
        readable(a + b) == readable(a) + readable(b),
    decreases b.len(),
{
    if b.len() == 0 {
        assert(a + b =~= a);
        assert(readable(a) + readable(b) =~= readable(a));
    } else {
        lemma_readable_concat(a, b.drop_last());
        assert((a + b).drop_last() =~= a + b.drop_last());
        assert(readable(a + b) =~= readable(a) + readable(b));
    }
}

/// A process of which too little could be read, as one that has exited in
/// between, is left out, and the processes before and behind it are kept
/// as if it had not been listed.
pub proof fn lemma_unreadable_is_left_out(
    before: Seq<ProcSnapshot>,
    gone: ProcSnapshot,
    behind: Seq<ProcSnapshot>,
)
    requires
        !is_readable(gone),
    ensures
        readable((before + seq![gone]) + behind) == readable(before + behind),
{
    let one = seq![gone];
    lemma_readable_concat(before + one, behind);
    lemma_readable_concat(before, one);
    lemma_readable_concat(before, behind);
    assert(one.drop_last() =~= Seq::<ProcSnapshot>::empty());
    assert(readable(one.drop_last()) =~= Seq::<ProcSnapshot>::empty());
    assert(readable(before) + Seq::<ProcSnapshot>::empty() =~= readable(before));
}

impl CmdStat {
    /// The record of the process in `snapshot`, or `None` where it yields
    /// no display name or neither pseudo-file yields figures.
    pub fn try_new(snapshot: &ProcSnapshot) -> (r: Option<CmdStat>)
        ensures
            r is Some <==> is_readable(*snapshot),
            r is Some ==> describes(r.unwrap(), *snapshot),
    {
        let exe: &String = match &snapshot.exe {
            Some(exe) => exe,
            None => {
                return None;
            },
        };
        let cmdline: &String = match &snapshot.cmdline {
            Some(cmdline) => cmdline,
            None => {
                return None;
            },
        };
        let rollup: Option<&[u8]> = match &snapshot.rollup {
            Some(content) => Some(content.as_slice()),
            None => None,
        };
        let detailed: Option<&[u8]> = match &snapshot.detailed {
            Some(content) => Some(content.as_slice()),
            None => None,
        };
        let name = match proc_name(exe.as_str(), cmdline.as_str()) {
            Some(name) => name,
            None => {
                return None;
            },
        };
        match memory_usage(rollup, detailed) {
            Some(usage) => Some(CmdStat::new(name, snapshot.pid, usage)),
            None => None,
        }
    }
}

/// The records of the processes in `snapshots`, in their order. A process
/// that yields no record is left out, and the others are not touched by it.
pub fn cmdstats_for(snapshots: &Vec<ProcSnapshot>) -> (stats: Vec<CmdStat>)
    ensures
        stats@.len() == readable(snapshots@).len(),
        forall|i: int|
            0 <= i < stats@.len() ==> describes(#[trigger] stats@[i], readable(snapshots@)[i]),
{
    let mut stats: Vec<CmdStat> = Vec::new();
    let mut k: usize = 0;
    assert(snapshots@.subrange(0, 0) =~= Seq::<ProcSnapshot>::empty());
    while k < snapshots.len()
        invariant
            0 <= k <= snapshots@.len(),
            stats@.len() == readable(snapshots@.subrange(0, k as int)).len(),
            forall|i: int|
                0 <= i < stats@.len() ==> describes(
                    #[trigger] stats@[i],
                    readable(snapshots@.subrange(0, k as int))[i],
                ),
        decreases snapshots.len() - k,
    {
        proof {
            let grown = snapshots@.subrange(0, k + 1);
            assert(grown.drop_last() =~= snapshots@.subrange(0, k as int));
            assert(grown.last() == snapshots@[k as int]);
        }
        match CmdStat::try_new(&snapshots[k]) {
            Some(stat) => {
                stats.push(stat);
            },
            None => {},
        }
        k = k + 1;
    }
    assert(snapshots@.subrange(0, k as int) =~= snapshots@);
    stats
}

} // verus!
