//! Small helpers on strings and shared strings.

use std::sync::Arc;
use vstd::prelude::*;

verus! {

/// `str`'s `==` of std: two string slices are equal when they hold the same
/// characters.
pub assume_specification[ <str as PartialEq>::eq ](a: &str, b: &str) -> (r: bool)
    ensures
        r == (a@ == b@),
;

/// Whether two string slices hold the same characters.
pub fn same(a: &str, b: &str) -> (r: bool)
    ensures
        r == (a@ == b@),
{
    *a == *b
}

/// `Arc::clone` of std, for a shared string: the new handle points to the same
/// string.
#[verifier::external_body]
pub(crate) fn share(s: &Arc<String>) -> (r: Arc<String>)
    ensures
        r == *s,
{
    Arc::clone(s)
}

} // verus!
