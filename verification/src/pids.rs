//! Telling which entries of the process-information root name a process.

use vstd::prelude::*;
use crate::digits::{decimal_value, is_decimal, is_digit, is_digit_byte, parse_decimal};

verus! {

/// What an entry turned out to be when it was looked at by itself.
#[derive(Clone, Copy, Debug, PartialEq, Eq, Structural)]
pub enum EntryKind {
    /// A directory.
    Directory,
    /// Anything else.
    Other,
}

/// Why an entry is passed over.
#[derive(Clone, Copy, Debug, PartialEq, Eq, Structural)]
pub enum EntryError {
    /// The entry is no directory.
    NotADirectory,
}

/// One entry of the process-information root.
#[derive(Debug)]
pub struct ProcEntry {
    /// The entry's name, as the listing gave it.
    pub name: Vec<u8>,
    /// What the entry was found to be, or `None` where it could not be
    /// looked at, as happens when a process has exited in between.
    pub kind: Option<EntryKind>,
}

/// A candidate whose name is no process identifier.
#[derive(Clone, Copy, Debug, PartialEq, Eq, Structural)]
pub struct BadPidName {
    /// The place of the entry in the listing.
    pub index: usize,
}

/// Whether `entry` is taken for a process: its name opens with a digit, and
/// it was found to be a directory.
pub open spec fn is_candidate(entry: ProcEntry) -> bool {
    &&& entry.name@.len() > 0
    &&& is_digit_byte(entry.name@[0])
    &&& entry.kind == Some(EntryKind::Directory)
}

/// The process identifier that `name` spells: `Some` where `name` is a
/// numeral whose value an `i32` can hold.
pub open spec fn pid_of(name: Seq<u8>) -> Option<i32> {
    if is_decimal(name) && decimal_value(name) <= i32::MAX {
        Some(decimal_value(name) as i32)
    } else {
        None
    }
}

/// Whether the name of every candidate among `entries` spells a process
/// identifier.
pub open spec fn all_pids_parse(entries: Seq<ProcEntry>) -> bool {
    forall|i: int|
        0 <= i < entries.len() && is_candidate(#[trigger] entries[i]) ==> pid_of(entries[i].name@)
            is Some
}

/// The process identifiers of the candidates among `entries`, in the order
/// of the listing.
pub open spec fn pids_of(entries: Seq<ProcEntry>) -> Seq<i32>
    decreases entries.len(),
{
    if entries.len() == 0 {
        Seq::empty()
    } else if is_candidate(entries.last()) && pid_of(entries.last().name@) is Some {
        pids_of(entries.drop_last()).push(pid_of(entries.last().name@).unwrap())
    } else {
        pids_of(entries.drop_last())
    }
}

/// The first character of an entry's name. The name must not be empty.
pub fn first_char(name: &[u8]) -> (c: char)
    requires
        name@.len() > 0,
    ensures
        c == name@[0] as char,
{
    name[0] as char
}

/// Lets a directory pass and turns anything else away.
pub fn is_dir(kind: EntryKind) -> (r: Result<EntryKind, EntryError>)
    ensures
        r == if kind == EntryKind::Directory {
            Ok::<EntryKind, EntryError>(kind)
        } else {
            Err::<EntryKind, EntryError>(EntryError::NotADirectory)
        },
{
    match kind {
        EntryKind::Directory => Ok(kind),
        EntryKind::Other => Err(EntryError::NotADirectory),
    }
}

/// Tells whether `entry` is taken for a process.
pub fn names_process(entry: &ProcEntry) -> (r: bool)
    ensures
        r == is_candidate(*entry),
{
    if entry.name.len() == 0 {
        return false;
    }
    if !is_digit(first_char(entry.name.as_slice())) {
        return false;
    }
    match entry.kind {
        Some(kind) => is_dir(kind).is_ok(),
        None => false,
    }
}

/// Reads `name` as a process identifier in base ten.
pub fn parse_pid(name: &[u8]) -> (r: Option<i32>)
    ensures
        r == pid_of(name@),
{
    match parse_decimal(name) {
        Some(value) => {
            if value <= i32::MAX as u64 {
                Some(value as i32)
            } else {
                None
            }
        },
        None => None,
    }
}

/// The identifiers of the processes among `entries`, in the order of the
/// listing.
///
/// Entries that are no candidates are passed over in silence. A candidate
/// whose name spells no identifier is an error, which names the first such
/// entry.
pub fn get_pids(entries: &Vec<ProcEntry>) -> (r: Result<Vec<i32>, BadPidName>)
    ensures
        r is Ok <==> all_pids_parse(entries@),
        r is Ok ==> r.unwrap()@ == pids_of(entries@),
        r is Err ==> {
            let at = r.unwrap_err().index as int;
            &&& 0 <= at < entries@.len()
            &&& is_candidate(entries@[at])
            &&& pid_of(entries@[at].name@) is None
            &&& all_pids_parse(entries@.subrange(0, at))
        },
{
    let mut pids: Vec<i32> = Vec::new();
    let mut i: usize = 0;
    assert(entries@.subrange(0, 0) =~= Seq::<ProcEntry>::empty());
    while i < entries.len()
        invariant
            0 <= i <= entries@.len(),
            all_pids_parse(entries@.subrange(0, i as int)),
            pids@ == pids_of(entries@.subrange(0, i as int)),
        decreases entries.len() - i,
    {
        let entry: &ProcEntry = &entries[i];
        let ghost seen = entries@.subrange(0, i as int);
        let ghost grown = entries@.subrange(0, i + 1);
        proof {
            assert(grown.drop_last() =~= seen);
            assert(grown.last() == entries@[i as int]);
        }
        if names_process(entry) {
            match parse_pid(entry.name.as_slice()) {
                Some(pid) => {
                    pids.push(pid);
                },
                None => {
                    return Err(BadPidName { index: i });
                },
            }
        }
        proof {
            assert forall|k: int| 0 <= k < grown.len() && is_candidate(
                #[trigger] grown[k],
            ) implies pid_of(grown[k].name@) is Some by {
                if k < seen.len() {
                    assert(grown[k] == seen[k]);
                }
            }
        }
        i = i + 1;
    }
    assert(entries@.subrange(0, i as int) =~= entries@);
    Ok(pids)
}

} // verus!
