//! Comparing records by name, with the operators of the language.

use std::cmp::Ordering;
use vstd::prelude::*;
use vstd::std_specs::cmp::{PartialEqSpecImpl, PartialOrdSpecImpl};
use vstd::utf8::encode_utf8;
use crate::bytes::lemma_lex_reflexive;
use crate::names::{lemma_name_antisymmetric, name_le, name_precedes};
use crate::stat::CmdStat;

verus! {

/// How the name `a` stands to the name `b`.
pub open spec fn name_ordering(a: Seq<char>, b: Seq<char>) -> Ordering {
    if a == b {
        Ordering::Equal
    } else if name_le(a, b) {
        Ordering::Less
    } else {
        Ordering::Greater
    }
}

impl CmdStat {
    /// How this record stands to `other` by name. Nothing but the name has
    /// a say.
    pub fn cmp(&self, other: &CmdStat) -> (r: Ordering)
        ensures
            r == name_ordering(self.name@, other.name@),
    {
        let forth = name_precedes(self.name.as_str(), other.name.as_str());
        let back = name_precedes(other.name.as_str(), self.name.as_str());
        proof {
            lemma_lex_reflexive(encode_utf8(self.name@));
            if forth && back {
                lemma_name_antisymmetric(self.name@, other.name@);
            }
        }
        if forth && back {
            Ordering::Equal
        } else if forth {
            Ordering::Less
        } else {
            Ordering::Greater
        }
    }
}

impl PartialEq for CmdStat {
    /// Two records are equal where they bear one name.
    fn eq(&self, other: &CmdStat) -> (r: bool) {
        self.name == other.name
    }
}

impl PartialEqSpecImpl for CmdStat {
    open spec fn obeys_eq_spec() -> bool {
        true
    }

    open spec fn eq_spec(&self, other: &CmdStat) -> bool {
        self.name@ == other.name@
    }
}

impl Eq for CmdStat {

}

impl PartialOrd for CmdStat {
    /// Records are ordered as their names are.
    fn partial_cmp(&self, other: &CmdStat) -> (r: Option<Ordering>) {
        Some(self.cmp(other))
    }
}

impl PartialOrdSpecImpl for CmdStat {
    open spec fn obeys_partial_cmp_spec() -> bool {
        true
    }

    open spec fn partial_cmp_spec(&self, other: &CmdStat) -> Option<Ordering> {
        Some(name_ordering(self.name@, other.name@))
    }
}

} // verus!
