//! The set of tags the waitlist shows publicly.

use vstd::prelude::*;

verus! {

/// The immutable public-tag snapshot.
pub struct PublicTags {
    pub tags: Vec<String>,
}

/// An owned copy of the public tag list.
pub fn public_tags(state: &PublicTags) -> (r: Vec<String>)
    ensures
        r@.len() == state.tags@.len(),
        forall|i: int| 0 <= i < r@.len() ==> (#[trigger] r@[i])@ == state.tags@[i]@,
{
    let n = state.tags.len();
    let mut out: Vec<String> = Vec::new();
    let mut i: usize = 0;
    while i < n
        invariant
            i <= n,
            n == state.tags@.len(),
            out@.len() == i,
            forall|j: int| 0 <= j < i ==> (#[trigger] out@[j])@ == state.tags@[j]@,
        decreases n - i,
    {
        out.push(state.tags[i].clone());
        i = i + 1;
    }
    out
}

/// Replaces the active public-tag snapshot whole.
pub fn reload_tags(current: &mut PublicTags, new_tags: Vec<String>)
    ensures
        final(current).tags@ == new_tags@,
{
    *current = PublicTags { tags: new_tags };
}

} // verus!
