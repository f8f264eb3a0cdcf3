//! The display name of a process.

use vstd::prelude::*;
use vstd::string::*;
use vstd::utf8::encode_utf8;
use crate::bytes::starts_with;

verus! {

/// `path` without what has no say in its last component: slashes at its
/// end, and components at its end that are a single dot.
pub open spec fn stem(path: Seq<char>) -> Seq<char>
    decreases path.len(),
{
    if path.len() == 0 {
        path
    } else if path.last() == '/' {
        stem(path.drop_last())
    } else if path.last() == '.' && (path.len() == 1 || path[path.len() - 2] == '/') {
        stem(path.drop_last())
    } else {
        path
    }
}

/// Where the part of `path` behind its last slash starts: at its start
/// where it holds no slash.
pub open spec fn base_start(path: Seq<char>) -> int
    decreases path.len(),
{
    if path.len() == 0 {
        0
    } else if path.last() == '/' {
        path.len() as int
    } else {
        base_start(path.drop_last())
    }
}

/// What follows the last slash of `path`, or all of it where it holds none.
pub open spec fn basename(path: Seq<char>) -> Seq<char> {
    path.subrange(base_start(path), path.len() as int)
}

/// The component that names the parent directory.
pub open spec fn parent_dir() -> Seq<char> {
    seq!['.', '.']
}

/// The final component of `path`, as a file or directory name.
///
/// Slashes at the end and single-dot components at the end are passed
/// over; what then follows the last slash is the component. There is none
/// where nothing is left, as for the root or the empty path, and none
/// where the component is the double dot.
pub open spec fn final_component(path: Seq<char>) -> Option<Seq<char>> {
    let rest = stem(path);
    if rest.len() == 0 || basename(rest) == parent_dir() {
        None
    } else {
        Some(basename(rest))
    }
}

/// Whether the command line `cmdline` opens with the text of `exe`, byte
/// for byte.
pub open spec fn echoes_exe(exe: Seq<char>, cmdline: Seq<char>) -> bool {
    encode_utf8(exe).is_prefix_of(encode_utf8(cmdline))
}

/// The name under which a process is shown: the final component of the path
/// of its executable where the command line opens with that path, and the
/// whole command line otherwise. A process has no name where its command
/// line opens with a path that has no final component.
pub open spec fn display_name(exe: Seq<char>, cmdline: Seq<char>) -> Option<Seq<char>> {
    if echoes_exe(exe, cmdline) {
        final_component(exe)
    } else {
        Some(cmdline)
    }
}

/// The part behind the last slash starts where no slash follows and a
/// slash, or nothing, stands before.
pub proof fn lemma_base_start_is(path: Seq<char>, k: int)
    requires
        0 <= k <= path.len(),
        forall|j: int| k <= j < path.len() ==> path[j] != '/',
        k > 0 ==> path[k - 1] == '/',
    ensures
        base_start(path) == k,
    decreases path.len(),
{
    if path.len() > 0 && k < path.len() {
        lemma_base_start_is(path.drop_last(), k);
    }
}

/// The part behind the last slash holds no slash, and is all of the path or
/// stands behind a slash.
pub proof fn lemma_basename_properties(path: Seq<char>)
    ensures
        0 <= base_start(path) <= path.len(),
        forall|j: int| 0 <= j < basename(path).len() ==> basename(path)[j] != '/',
        base_start(path) > 0 ==> path[base_start(path) - 1] == '/',
    decreases path.len(),
{
    if path.len() > 0 && path.last() != '/' {
        let shorter = path.drop_last();
        lemma_basename_properties(shorter);
        assert forall|j: int| 0 <= j < basename(path).len() implies basename(path)[j] != '/' by {
            if j < basename(shorter).len() {
                assert(basename(path)[j] == basename(shorter)[j]);
            }
        }
    }
}

/// The stem is a start of the path, and ends in no slash.
pub proof fn lemma_stem_properties(path: Seq<char>)
    ensures
        stem(path).len() <= path.len(),
        stem(path) == path.subrange(0, stem(path).len() as int),
        stem(path).len() > 0 ==> stem(path).last() != '/',
    decreases path.len(),
{
    if path.len() == 0 {
        assert(path.subrange(0, 0) =~= path);
    } else if path.last() == '/' || (path.last() == '.' && (path.len() == 1 || path[path.len()
        - 2] == '/')) {
        let shorter = path.drop_last();
        lemma_stem_properties(shorter);
        assert(shorter.subrange(0, stem(shorter).len() as int) =~= path.subrange(
            0,
            stem(shorter).len() as int,
        ));
    } else {
        assert(path.subrange(0, path.len() as int) =~= path);
    }
}

/// A final component is not empty, holds no slash, and is neither the
/// single nor the double dot.
pub proof fn lemma_final_component_is_a_name(path: Seq<char>)
    requires
        final_component(path) is Some,
    ensures
        final_component(path).unwrap().len() > 0,
        forall|j: int|
            0 <= j < final_component(path).unwrap().len() ==> final_component(path).unwrap()[j]
                != '/',
        final_component(path).unwrap() != seq!['.'],
        final_component(path).unwrap() != parent_dir(),
{
    let rest = stem(path);
    let name = basename(rest);
    lemma_stem_properties(path);
    lemma_basename_properties(rest);
    lemma_stem_is_stable(path);
    assert(name.len() > 0) by {
        if base_start(rest) == rest.len() {
            assert(rest[rest.len() - 1] == '/');
        }
    }
    if name =~= seq!['.'] {
        assert(name.len() == 1);
        assert(rest.last() == name[0]);
        lemma_stem_properties(rest.drop_last());
    }
}

/// The stem has nothing more to pass over.
pub proof fn lemma_stem_is_stable(path: Seq<char>)
    ensures
        stem(stem(path)) == stem(path),
    decreases path.len(),
{
    if path.len() > 0 && (path.last() == '/' || (path.last() == '.' && (path.len() == 1
        || path[path.len() - 2] == '/'))) {
        lemma_stem_is_stable(path.drop_last());
    }
}

/// The final component of `path`, if it has one. It is never empty and
/// holds no slash.
pub fn file_name(path: &str) -> (name: Option<String>)
    ensures
        name is Some <==> final_component(path@) is Some,
        name is Some ==> name.unwrap()@ == final_component(path@).unwrap(),
        name is Some ==> name.unwrap()@.len() > 0,
        name is Some ==> forall|j: int|
            0 <= j < name.unwrap()@.len() ==> name.unwrap()@[j] != '/',
{
    let n: usize = path.unicode_len();
    let mut end: usize = n;
    assert(path@.subrange(0, n as int) =~= path@);
    loop
        invariant
            n == path@.len(),
            0 <= end <= n,
            stem(path@) == stem(path@.subrange(0, end as int)),
        ensures
            stem(path@) == path@.subrange(0, end as int),
        decreases end,
    {
        if end == 0 {
            break ;
        }
        let ghost head = path@.subrange(0, end as int);
        let last: char = path.get_char(end - 1);
        let passed: bool = if last == '/' {
            true
        } else if last == '.' {
            end == 1 || path.get_char(end - 2) == '/'
        } else {
            false
        };
        proof {
            assert(head.last() == last);
            if end >= 2 {
                assert(head[end - 2] == path@[end - 2]);
            }
            assert(head.drop_last() =~= path@.subrange(0, end - 1));
        }
        if !passed {
            break ;
        }
        end = end - 1;
    }
    if end == 0 {
        return None;
    }
    let ghost rest = path@.subrange(0, end as int);
    let mut start: usize = end;
    while start > 0 && path.get_char(start - 1) != '/'
        invariant
            n == path@.len(),
            0 <= start <= end <= n,
            rest == path@.subrange(0, end as int),
            forall|j: int| start <= j < end ==> rest[j] != '/',
        decreases start,
    {
        start = start - 1;
    }
    proof {
        lemma_base_start_is(rest, start as int);
        assert(basename(rest) =~= path@.subrange(start as int, end as int));
    }
    if end - start == 2 && path.get_char(start) == '.' && path.get_char(start + 1) == '.' {
        assert(basename(rest) =~= parent_dir());
        return None;
    }
    proof {
        if basename(rest) == parent_dir() {
            assert(basename(rest).len() == 2);
            assert(basename(rest)[0] == '.' && basename(rest)[1] == '.');
        }
        lemma_final_component_is_a_name(path@);
    }
    Some(path.substring_char(start, end).to_owned())
}

/// Settles the display name of a process from the path that its `exe` link
/// resolves to and from its command line.
pub fn proc_name(exe: &str, cmdline: &str) -> (name: Option<String>)
    ensures
        name is Some <==> display_name(exe@, cmdline@) is Some,
        name is Some ==> name.unwrap()@ == display_name(exe@, cmdline@).unwrap(),
{
    if starts_with(cmdline.as_bytes(), exe.as_bytes()) {
        file_name(exe)
    } else {
        Some(cmdline.to_owned())
    }
}

} // verus!
