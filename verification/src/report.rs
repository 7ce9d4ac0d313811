//! Which groups a report shows.

use vstd::prelude::*;

verus! {

/// Whether a group of `count` paths is shown: it has `min_count` paths at
/// least, and `max_count` at most where that is given.
pub open spec fn is_shown_spec(count: usize, min_count: usize, max_count: Option<usize>) -> bool {
    &&& min_count <= count
    &&& max_count matches Some(most) ==> count <= most
}

/// Decides whether a group of `count` paths is shown.
#[verifier::when_used_as_spec(is_shown_spec)]
pub fn is_shown(count: usize, min_count: usize, max_count: Option<usize>) -> (shown: bool)
    ensures
        shown == is_shown_spec(count, min_count, max_count),
{
    if count < min_count {
        return false;
    }
    match max_count {
        Some(most) => count <= most,
        None => true,
    }
}

} // verus!
