//! Looking through a range of places for the first or the last that will do.

use vstd::prelude::*;

verus! {

/// The first place in `lo..hi` that `want` holds of, or `hi`.
pub open spec fn first_in(lo: int, hi: int, want: spec_fn(int) -> bool) -> int
    decreases hi - lo,
{
    if lo >= hi {
        hi
    } else if want(lo) {
        lo
    } else {
        first_in(lo + 1, hi, want)
    }
}

/// The last place in `lo..hi` that `want` holds of.
pub open spec fn last_in(lo: int, hi: int, want: spec_fn(int) -> bool) -> Option<int>
    decreases hi - lo,
{
    if lo >= hi {
        None
    } else if want(hi - 1) {
        Some(hi - 1)
    } else {
        last_in(lo, hi - 1, want)
    }
}

/// The first place is in the range or at its end, it is wanted when it is in
/// the range, and nothing before it is wanted.
pub proof fn lemma_first_in(lo: int, hi: int, want: spec_fn(int) -> bool)
    requires
        lo <= hi,
    ensures
        lo <= first_in(lo, hi, want) <= hi,
        first_in(lo, hi, want) < hi ==> want(first_in(lo, hi, want)),
        forall|i: int| lo <= i < first_in(lo, hi, want) ==> !#[trigger] want(i),
    decreases hi - lo,
{
    if lo < hi && !want(lo) {
        lemma_first_in(lo + 1, hi, want);
    }
}

/// The last place is in the range, it is wanted, and nothing after it is.
pub proof fn lemma_last_in(lo: int, hi: int, want: spec_fn(int) -> bool)
    ensures
        match last_in(lo, hi, want) {
            Some(at) => lo <= at < hi && want(at) && forall|i: int|
                at < i < hi ==> !#[trigger] want(i),
            None => forall|i: int| lo <= i < hi ==> !#[trigger] want(i),
        },
    decreases hi - lo,
{
    if lo < hi && !want(hi - 1) {
        lemma_last_in(lo, hi - 1, want);
    }
}

} // verus!
