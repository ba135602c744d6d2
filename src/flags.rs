use vstd::prelude::*;

verus! {

/// The indices below `k` at which the predicate `f` holds.
pub open spec fn flags_below(f: spec_fn(nat) -> bool, k: nat) -> Set<nat> {
    Set::new(|j: nat| j < k && f(j))
}

/// `flags_below` is finite and grows by at most the index `k` from `k` to `k + 1`.
pub proof fn lemma_flags_below(f: spec_fn(nat) -> bool, k: nat)
    ensures
        flags_below(f, k).finite(),
        !flags_below(f, k).contains(k),
        flags_below(f, k + 1) == (if f(k) {
            flags_below(f, k).insert(k)
        } else {
            flags_below(f, k)
        }),
        flags_below(f, k + 1).len() == flags_below(f, k).len() + (if f(k) { 1nat } else { 0nat }),
    decreases k,
{
    if k == 0 {
        assert(flags_below(f, 0) =~= Set::<nat>::empty());
    } else {
        lemma_flags_below(f, (k - 1) as nat);
    }
    assert(flags_below(f, k + 1) =~= (if f(k) {
        flags_below(f, k).insert(k)
    } else {
        flags_below(f, k)
    }));
}

} // verus!
