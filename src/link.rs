//! The kinds of links between notes.
use vstd::prelude::*;
use crate::text::str_eq;

verus! {

/// A link between two notes. Hierarchy and sequence come from the notes'
/// addresses, so a plain reference is the one kind.
#[derive(Debug, Clone, Copy, PartialEq, Eq, Structural)]
pub enum LinkType {
    References,
}

impl LinkType {
    /// The stored name of the link kind.
    pub fn as_str(&self) -> (r: &'static str)
        ensures
            r@ == "references"@,
    {
        "references"
    }

    /// The link kind with the stored name `s`, if any.
    pub fn from_str(s: &str) -> (r: Option<LinkType>)
        ensures
            r is Some <==> s@ == "references"@,
            r matches Some(t) ==> t == LinkType::References,
    {
        if str_eq(s, "references") {
            Some(LinkType::References)
        } else {
            None
        }
    }
}

} // verus!
