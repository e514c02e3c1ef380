//! Counting the marked positions of a sequence.

use vstd::prelude::*;

verus! {

/// The marked ones of the first `n` positions.
pub open spec fn marked(mark: spec_fn(int) -> bool, n: nat) -> Set<int> {
    Set::new(|i: int| 0 <= i < n && mark(i))
}

/// One position more is one more if it is marked.
pub(crate) proof fn lemma_marked(mark: spec_fn(int) -> bool, n: nat)
    ensures
        marked(mark, 0).len() == 0,
        marked(mark, n).finite(),
        marked(mark, n + 1).len() == marked(mark, n).len() + if mark(n as int) {
            1nat
        } else {
            0
        },
    decreases n,
{
    assert(marked(mark, 0) =~= Set::empty());
    if n > 0 {
        lemma_marked(mark, (n - 1) as nat);
        lemma_grown(mark, (n - 1) as nat);
    }
    lemma_grown(mark, n);
}

proof fn lemma_grown(mark: spec_fn(int) -> bool, n: nat)
    requires
        marked(mark, n).finite(),
    ensures
        marked(mark, n + 1).finite(),
        marked(mark, n + 1).len() == marked(mark, n).len() + if mark(n as int) {
            1nat
        } else {
            0
        },
{
    if mark(n as int) {
        assert(marked(mark, n + 1) =~= marked(mark, n).insert(n as int));
    } else {
        assert(marked(mark, n + 1) =~= marked(mark, n));
    }
}

} // verus!
