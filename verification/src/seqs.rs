//! Small routines over sequences of plain values.

use vstd::prelude::*;

verus! {

/// A vector with the elements of `s`.
pub fn copied<T: Copy>(s: &[T]) -> (r: Vec<T>)
    ensures
        r@ == s@,
{
    let mut r: Vec<T> = Vec::with_capacity(s.len());
    let mut i: usize = 0;
    while i < s.len()
        invariant
            i <= s.len(),
            r@ == s@.take(i as int),
        decreases s.len() - i,
    {
        r.push(s[i]);
        assert(s@.take(i + 1) =~= s@.take(i as int).push(s@[i as int]));
        i += 1;
    }
    assert(s@.take(i as int) =~= s@);
    r
}

/// A vector of `n` times `v`.
pub fn filled<T: Copy>(v: T, n: usize) -> (r: Vec<T>)
    ensures
        r@ == Seq::new(n as nat, |i: int| v),
{
    let mut r: Vec<T> = Vec::with_capacity(n);
    let mut i: usize = 0;
    while i < n
        invariant
            i <= n,
            r@ == Seq::new(i as nat, |k: int| v),
        decreases n - i,
    {
        r.push(v);
        assert(Seq::new((i + 1) as nat, |k: int| v) =~= Seq::new(i as nat, |k: int| v).push(v));
        i += 1;
    }
    r
}

/// A vector with the first `n` elements of `s`.
pub fn prefix<T: Copy>(s: &[T], n: usize) -> (r: Vec<T>)
    requires
        n <= s@.len(),
    ensures
        r@ == s@.take(n as int),
{
    let mut r: Vec<T> = Vec::with_capacity(n);
    let mut i: usize = 0;
    while i < n
        invariant
            i <= n <= s@.len(),
            r@ == s@.take(i as int),
        decreases n - i,
    {
        r.push(s[i]);
        assert(s@.take(i + 1) =~= s@.take(i as int).push(s@[i as int]));
        i += 1;
    }
    r
}

/// Appends the elements of `part`.
pub fn append_all<T: Copy>(v: &mut Vec<T>, part: &Vec<T>)
    ensures
        final(v)@ == old(v)@ + part@,
{
    let ghost before = v@;
    let mut i: usize = 0;
    while i < part.len()
        invariant
            i <= part@.len(),
            v@ == before + part@.take(i as int),
        decreases part.len() - i,
    {
        v.push(part[i]);
        assert(part@.take(i + 1) =~= part@.take(i as int).push(part@[i as int]));
        i += 1;
    }
    assert(part@.take(i as int) =~= part@);
}

} // verus!
