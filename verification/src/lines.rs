//! Splitting the content of a pseudo-file into lines.

use vstd::prelude::*;

verus! {

/// The byte that ends a line.
pub const NEWLINE: u8 = 0x0a;

/// How many bytes stand before the first newline of `s`: the whole length
/// where `s` holds no newline.
pub open spec fn line_len(s: Seq<u8>) -> nat
    decreases s.len(),
{
    if s.len() == 0 || s[0] == NEWLINE {
        0
    } else {
        1 + line_len(s.drop_first())
    }
}

/// The first line of `s`, without the newline that ends it.
pub open spec fn first_line(s: Seq<u8>) -> Seq<u8> {
    s.subrange(0, line_len(s) as int)
}

/// What follows the first line of `s` and its newline.
pub open spec fn after_first_line(s: Seq<u8>) -> Seq<u8> {
    if line_len(s) < s.len() {
        s.subrange(line_len(s) as int + 1, s.len() as int)
    } else {
        Seq::empty()
    }
}

/// The lines of `s` in order, each without its newline. A last line needs no
/// newline, and a newline at the very end opens no further line, so empty
/// content has no lines.
pub open spec fn lines_of(s: Seq<u8>) -> Seq<Seq<u8>>
    decreases s.len(),
{
    if s.len() == 0 {
        Seq::empty()
    } else {
        seq![first_line(s)] + lines_of(after_first_line(s))
    }
}

/// The first line is never longer than the content.
pub proof fn lemma_line_len_le(s: Seq<u8>)
    ensures
        line_len(s) <= s.len(),
    decreases s.len(),
{
    if s.len() > 0 && s[0] != NEWLINE {
        lemma_line_len_le(s.drop_first());
    }
}

/// The first line ends where the first newline stands, or with the content.
pub proof fn lemma_line_len_is(s: Seq<u8>, k: int)
    requires
        0 <= k <= s.len(),
        forall|j: int| 0 <= j < k ==> s[j] != NEWLINE,
        k == s.len() || s[k] == NEWLINE,
    ensures
        line_len(s) == k,
    decreases k,
{
    if k > 0 {
        let t = s.drop_first();
        assert forall|j: int| 0 <= j < k - 1 implies t[j] != NEWLINE by {
            assert(t[j] == s[j + 1]);
        }
        lemma_line_len_is(t, k - 1);
    }
}

/// A cursor over the lines of a byte buffer.
pub struct Lines<'a> {
    rest: &'a [u8],
}

impl<'a> View for Lines<'a> {
    type V = Seq<u8>;

    /// The bytes that have not been handed out yet.
    closed spec fn view(&self) -> Seq<u8> {
        self.rest@
    }
}

impl<'a> Lines<'a> {
    /// A cursor at the start of `buffer`.
    pub fn new(buffer: &'a [u8]) -> (lines: Lines<'a>)
        ensures
            lines@ == buffer@,
    {
        Lines { rest: buffer }
    }

    /// Hands out the next line, without its newline, and moves past it.
    /// At the end of the buffer the answer is `None` and nothing moves.
    pub fn next(&mut self) -> (line: Option<&'a [u8]>)
        ensures
            old(self)@.len() == 0 ==> line is None && final(self)@ == old(self)@,
            old(self)@.len() > 0 ==> line is Some && line.unwrap()@ == first_line(old(self)@)
                && final(self)@ == after_first_line(old(self)@),
    {
        let rest: &'a [u8] = self.rest;
        let n: usize = rest.len();
        if n == 0 {
            return None;
        }
        let mut k: usize = 0;
        while k < n && rest[k] != NEWLINE
            invariant
                n == rest@.len(),
                0 <= k <= n,
                forall|j: int| 0 <= j < k ==> rest@[j] != NEWLINE,
            decreases n - k,
        {
            k = k + 1;
        }
        proof {
            lemma_line_len_is(rest@, k as int);
        }
        let line: &'a [u8] = &rest[0..k];
        if k < n {
            self.rest = &rest[k + 1..n];
        } else {
            self.rest = &rest[n..n];
        }
        Some(line)
    }
}

} // verus!
