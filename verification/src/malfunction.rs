//! Faults that can be put into an output on purpose, to see that something notices them.
use crate::text::same_text;
use vstd::prelude::*;

verus! {

/// The fault of the supplied name was asked for.
pub open spec fn is_requested(requested: Option<&str>, name: Seq<char>) -> bool {
    requested matches Some(wanted) && wanted@ == name
}

/// Returns whether the fault of the supplied name was asked for.
pub fn malfunction_point(requested: Option<&str>, name: &str) -> (fail: bool)
    ensures
        fail == is_requested(requested, name@),
{
    match requested {
        Some(wanted) => same_text(wanted, name),
        None => false,
    }
}

} // verus!
