//! The first element of a sequence that meets a condition.

use vstd::prelude::*;

verus! {

/// The first position from `k` on whose element meets `p`.
pub open spec fn find_from<T>(s: Seq<T>, p: spec_fn(T) -> bool, k: int) -> Option<int>
    decreases s.len() - k,
{
    if k >= s.len() {
        None
    } else if p(s[k]) {
        Some(k)
    } else {
        find_from(s, p, k + 1)
    }
}

/// The first position whose element meets `p`.
pub open spec fn find<T>(s: Seq<T>, p: spec_fn(T) -> bool) -> Option<int> {
    find_from(s, p, 0)
}

/// What it means to be found, and not to be.
pub proof fn lemma_find_from<T>(s: Seq<T>, p: spec_fn(T) -> bool, k: int)
    requires
        0 <= k,
    ensures
        match find_from(s, p, k) {
            Some(i) => k <= i < s.len() && p(s[i]) && forall|j: int|
                k <= j < i ==> !p(#[trigger] s[j]),
            None => forall|j: int| k <= j < s.len() ==> !p(#[trigger] s[j]),
        },
    decreases s.len() - k,
{
    if k < s.len() && !p(s[k]) {
        lemma_find_from(s, p, k + 1);
    }
}

/// What it means to be found, and not to be.
pub proof fn lemma_find<T>(s: Seq<T>, p: spec_fn(T) -> bool)
    ensures
        match find(s, p) {
            Some(i) => 0 <= i < s.len() && p(s[i]) && forall|j: int|
                0 <= j < i ==> !p(#[trigger] s[j]),
            None => forall|j: int| 0 <= j < s.len() ==> !p(#[trigger] s[j]),
        },
{
    lemma_find_from(s, p, 0);
}

} // verus!
