//! Least index with a property: the vocabulary of every linear scan in the crate.

use vstd::prelude::*;

verus! {

/// The least `i` in `lo..hi` for which `p(i)` holds.
pub open spec fn least(lo: int, hi: int, p: spec_fn(int) -> bool) -> Option<int>
    decreases hi - lo,
{
    if lo >= hi {
        None
    } else if p(lo) {
        Some(lo)
    } else {
        least(lo + 1, hi, p)
    }
}

/// What `least` means: the answer has the property and nothing before it does.
pub(crate) proof fn lemma_least(lo: int, hi: int, p: spec_fn(int) -> bool)
    ensures
        match least(lo, hi, p) {
            Some(i) => lo <= i < hi && p(i) && forall|j: int| lo <= j < i ==> !#[trigger] p(j),
            None => forall|j: int| lo <= j < hi ==> !#[trigger] p(j),
        },
    decreases hi - lo,
{
    if lo < hi && !p(lo) {
        lemma_least(lo + 1, hi, p);
    }
}

/// An index that has the property, with none before it, is the least one.
pub(crate) proof fn lemma_least_found(lo: int, hi: int, p: spec_fn(int) -> bool, i: int)
    requires
        lo <= i < hi,
        p(i),
        forall|j: int| lo <= j < i ==> !#[trigger] p(j),
    ensures
        least(lo, hi, p) == Some(i),
{
    lemma_least(lo, hi, p);
    let r = least(lo, hi, p);
    if r is None {
        assert(!p(i));
    } else if r->0 < i {
        assert(!p(r->0));
    }
}

/// Where no index has the property there is no least one.
pub(crate) proof fn lemma_least_none(lo: int, hi: int, p: spec_fn(int) -> bool)
    requires
        forall|j: int| lo <= j < hi ==> !#[trigger] p(j),
    ensures
        least(lo, hi, p) is None,
{
    lemma_least(lo, hi, p);
}

/// Where two properties agree, so do the least indices that have them.
pub(crate) proof fn lemma_least_same(lo: int, hi: int, p: spec_fn(int) -> bool, q: spec_fn(int) -> bool)
    requires
        forall|i: int| lo <= i < hi ==> #[trigger] p(i) == q(i),
    ensures
        least(lo, hi, p) == least(lo, hi, q),
    decreases hi - lo,
{
    if lo < hi {
        assert(p(lo) == q(lo));
        lemma_least_same(lo + 1, hi, p, q);
    }
}

} // verus!
