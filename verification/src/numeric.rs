//! Vector arithmetic over [`Scalar`], with the relations that describe it.

use vstd::prelude::*;

use crate::scalar::{adds, eqs, finites, muls, roots, subs, zeros, Scalar};

verus! {

/// `s` is the running sum of the squares of `v`, from the first element on.
pub open spec fn squares_sum<F: Scalar>(v: Seq<F>, s: F) -> bool
    decreases v.len(),
{
    if v.len() == 0 {
        zeros(s)
    } else {
        exists|p: F, q: F| #[trigger]
            adds(p, q, s) && muls(v.last(), v.last(), q) && squares_sum(v.drop_last(), p)
    }
}

/// `r` is the Euclidean norm of `v`.
pub open spec fn norm_is<F: Scalar>(v: Seq<F>, r: F) -> bool {
    exists|s: F| #[trigger] squares_sum(v, s) && roots(s, r)
}

/// Euclidean norm.
pub fn vec_norm<F: Scalar>(v: &[F]) -> (r: F)
    ensures
        norm_is(v@, r),
{
    let mut s: F = F::zero();
    let mut i: usize = 0;
    assert(squares_sum(v@.take(0), s));
    while i < v.len()
        invariant
            i <= v.len(),
            squares_sum(v@.take(i as int), s),
        decreases v.len() - i,
    {
        let q: F = v[i].times(v[i]);
        let next: F = s.plus(q);
        proof {
            let wider = v@.take(i + 1);
            assert(wider.drop_last() =~= v@.take(i as int));
            assert(muls(wider.last(), wider.last(), q));
            assert(adds(s, q, next));
        }
        s = next;
        i += 1;
    }
    assert(v@.take(i as int) =~= v@);
    s.root()
}

/// `r` is the elementwise difference `a - b` of the first `n` elements.
pub open spec fn differences<F: Scalar>(a: Seq<F>, b: Seq<F>, n: int, r: Seq<F>) -> bool {
    &&& r.len() == n
    &&& forall|i: int| 0 <= i < n ==> subs(a[i], b[i], #[trigger] r[i])
}

/// Elementwise difference of the first `n` elements.
pub fn difference<F: Scalar>(a: &[F], b: &[F], n: usize) -> (r: Vec<F>)
    requires
        n <= a@.len(),
        n <= b@.len(),
    ensures
        differences(a@, b@, n as int, r@),
{
    let mut r: Vec<F> = Vec::with_capacity(n);
    let mut i: usize = 0;
    while i < n
        invariant
            i <= n <= a@.len(),
            n <= b@.len(),
            differences(a@, b@, i as int, r@),
        decreases n - i,
    {
        r.push(a[i].minus(b[i]));
        i += 1;
    }
    r
}

/// Every comparison of corresponding elements may come out equal.
pub open spec fn all_same<F: Scalar>(a: Seq<F>, b: Seq<F>) -> bool {
    &&& a.len() == b.len()
    &&& forall|i: int| 0 <= i < a.len() ==> eqs(#[trigger] a[i], b[i], true)
}

/// Whether two vectors have the same length and equal elements.
pub fn equal<F: Scalar>(a: &[F], b: &[F]) -> (r: bool)
    ensures
        r ==> all_same(a@, b@),
        a@.len() != b@.len() ==> !r,
        !r ==> a@.len() != b@.len() || exists|i: int|
            0 <= i < a@.len() && eqs(#[trigger] a@[i], b@[i], false),
{
    if a.len() != b.len() {
        return false;
    }
    let mut i: usize = 0;
    while i < a.len()
        invariant
            i <= a.len(),
            a@.len() == b@.len(),
            forall|k: int| 0 <= k < i ==> eqs(#[trigger] a@[k], b@[k], true),
        decreases a.len() - i,
    {
        let same: bool = a[i].same(b[i]);
        assert(eqs(a@[i as int], b@[i as int], same));
        if !same {
            return false;
        }
        i += 1;
    }
    true
}

/// Whether every element is finite; stops at the first that is not.
pub fn all_finite<F: Scalar>(v: &[F]) -> (r: bool)
    ensures
        r ==> forall|i: int| 0 <= i < v@.len() ==> finites(#[trigger] v@[i], true),
        !r ==> exists|i: int| 0 <= i < v@.len() && finites(#[trigger] v@[i], false),
{
    let mut i: usize = 0;
    while i < v.len()
        invariant
            i <= v.len(),
            forall|k: int| 0 <= k < i ==> finites(#[trigger] v@[k], true),
        decreases v.len() - i,
    {
        let ok: bool = v[i].finite();
        assert(finites(v@[i as int], ok));
        if !ok {
            return false;
        }
        i += 1;
    }
    true
}

} // verus!
