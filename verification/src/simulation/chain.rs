//! Chains of steps, as loops make them.

use vstd::prelude::*;

verus! {

/// Step `i` may lead from `a` to `b`.
pub open spec fn link<S>(step: spec_fn(int, S, S) -> bool, i: int, a: S, b: S) -> bool {
    step(i, a, b)
}

/// The first `k` steps, one after the other, may lead from `a` to `b`.
pub open spec fn chain<S>(k: int, step: spec_fn(int, S, S) -> bool, a: S, b: S) -> bool
    decreases k,
{
    if k <= 0 {
        b == a
    } else {
        exists|m: S| #[trigger] link(step, k - 1, m, b) && chain(k - 1, step, a, m)
    }
}

/// One more step.
pub proof fn lemma_chain_push<S>(k: int, step: spec_fn(int, S, S) -> bool, a: S, m: S, b: S)
    requires
        0 <= k,
        chain(k, step, a, m),
        step(k, m, b),
    ensures
        chain(k + 1, step, a, b),
{
    assert(link(step, k + 1 - 1, m, b));
}

/// What every step keeps, the chain keeps.
pub proof fn lemma_chain_keeps<S>(
    k: int,
    step: spec_fn(int, S, S) -> bool,
    keeps: spec_fn(S, S) -> bool,
    a: S,
    b: S,
)
    requires
        chain(k, step, a, b),
        forall|i: int, x: S, y: S| 0 <= i < k && #[trigger] link(step, i, x, y) ==> keeps(x, y),
        forall|x: S| #[trigger] keeps(x, x),
        forall|x: S, y: S, z: S|
            #[trigger] keeps(x, y) && #[trigger] keeps(y, z) ==> keeps(x, z),
    ensures
        keeps(a, b),
    decreases k,
{
    if k > 0 {
        let m = choose|m: S| #[trigger] link(step, k - 1, m, b) && chain(k - 1, step, a, m);
        lemma_chain_keeps(k - 1, step, keeps, a, m);
        assert(keeps(a, m) && keeps(m, b));
    }
}

} // verus!
