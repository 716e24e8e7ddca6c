//! Central differences, for callbacks that have no derivative.

use vstd::prelude::*;

use crate::expr::{evaluates, lit, val, Num, Term};
use crate::scalar::Scalar;
use crate::seqs::{copied, filled};

verus! {

/// The right-hand side of a differential equation.
pub trait Field<F> {
    fn rhs(&self, x: &Vec<F>, t: F) -> Vec<F>;
}

/// `out` may be the right-hand side at `x` and `t`.
pub open spec fn rhs_gives<F, P: Field<F>>(field: P, x: Seq<F>, t: F, out: Seq<F>) -> bool {
    exists|xv: Vec<F>, ov: Vec<F>| #[trigger]
        call_ensures(P::rhs, (&field, &xv, t), ov) && xv@ == x && ov@ == out
}

/// The step for a state of value `x`: relative, but not below `eps`.
pub open spec fn step_formula<F>(eps: F, x: F) -> Term<F> {
    val(eps).times(val(x).magnitude()).larger(val(eps))
}

/// Half the difference of the values on both sides, over the step.
pub open spec fn slope_formula<F>(above: F, below: F, h: F) -> Term<F> {
    lit(1, 2).times(val(above).minus(val(below))).over(val(h))
}

/// The evaluations for one column: the step, and the values on both sides.
pub struct Column<F> {
    pub h: F,
    pub above: Seq<F>,
    pub below: Seq<F>,
}

/// The evaluations for column `j` at `x` and `t`.
pub open spec fn column_at<F: Scalar, P: Field<F>>(
    field: P,
    x: Seq<F>,
    t: F,
    eps: F,
    j: int,
    c: Column<F>,
) -> bool {
    exists|up: F, down: F| #[trigger]
        sides(x[j], c.h, up, down) && evaluates(step_formula(eps, x[j]), c.h) && rhs_gives(
            field,
            x.update(j, up),
            t,
            c.above,
        ) && rhs_gives(field, x.update(j, down), t, c.below)
}

/// The points on both sides of `x`.
pub open spec fn sides<F: Scalar>(x: F, h: F, up: F, down: F) -> bool {
    evaluates(val(x).plus(val(h)), up) && evaluates(val(x).minus(val(h)), down)
}

/// Entry in row `i` of a column.
pub open spec fn entry_of<F: Scalar>(c: Column<F>, i: int, v: F) -> bool {
    evaluates(slope_formula(c.above[i], c.below[i], c.h), v)
}

/// The first `k` columns of the row-major matrix `m`, by way of `cols`.
pub open spec fn columns_of<F: Scalar, P: Field<F>>(
    field: P,
    x: Seq<F>,
    t: F,
    eps: F,
    k: int,
    cols: Seq<Column<F>>,
    m: Seq<F>,
) -> bool {
    let n = x.len() as int;
    &&& cols.len() == k
    &&& m.len() == n * n
    &&& forall|j: int| 0 <= j < k ==> column_at(field, x, t, eps, j, #[trigger] cols[j])
    &&& forall|i: int, j: int|
        #![trigger m[i * n + j]]
        0 <= i < n && 0 <= j < k ==> entry_of(cols[j], i, m[i * n + j])
}

/// `m` is the derivative at `x` and `t` by central differences.
pub open spec fn differenced<F: Scalar, P: Field<F>>(
    field: P,
    x: Seq<F>,
    t: F,
    eps: F,
    m: Seq<F>,
) -> bool {
    exists|cols: Seq<Column<F>>| #[trigger]
        columns_of(field, x, t, eps, x.len() as int, cols, m)
}

/// One of the evaluations gives too few values.
pub open spec fn too_short<F: Scalar, P: Field<F>>(field: P, x: Seq<F>, t: F, eps: F) -> bool {
    exists|j: int, c: Column<F>| #[trigger]
        column_at(field, x, t, eps, j, c) && 0 <= j < x.len() && (c.above.len() < x.len()
            || c.below.len() < x.len())
}

/// The derivative of a right-hand side, row by row, by central differences; nothing
/// if the right-hand side has fewer values than there are states.
pub fn difference_jacobian<F: Scalar, P: Field<F>>(field: &P, x: &Vec<F>, t: F, eps: F) -> (r: Option<
    Vec<F>,
>)
    requires
        x@.len() * x@.len() <= usize::MAX,
    ensures
        match r {
            Some(m) => differenced(*field, x@, t, eps, m@),
            None => too_short(*field, x@, t, eps),
        },
{
    let n: usize = x.len();
    let mut m: Vec<F> = filled(F::zero(), n * n);
    let mut at: Vec<F> = copied(x.as_slice());
    let ghost mut cols: Seq<Column<F>> = Seq::empty();
    let mut j: usize = 0;
    while j < n
        invariant
            j <= n,
            n == x@.len(),
            n * n <= usize::MAX,
            at@ == x@,
            columns_of(*field, x@, t, eps, j as int, cols, m@),
        decreases n - j,
    {
        let h: F = Num::of(eps).times(Num::of(x[j]).magnitude()).larger(Num::of(eps)).value;
        let up: F = Num::of(x[j]).plus(Num::of(h)).value;
        at.set(j, up);
        let above: Vec<F> = field.rhs(&at, t);
        assert(rhs_gives(*field, x@.update(j as int, up), t, above@));
        let down: F = Num::of(x[j]).minus(Num::of(h)).value;
        at.set(j, down);
        assert(at@ =~= x@.update(j as int, down));
        let below: Vec<F> = field.rhs(&at, t);
        assert(rhs_gives(*field, x@.update(j as int, down), t, below@));
        at.set(j, x[j]);
        assert(at@ =~= x@);
        let ghost c = Column { h, above: above@, below: below@ };
        assert(sides(x@[j as int], h, up, down));
        proof {
            let xj = x@[j as int];
            assert(evaluates(step_formula(eps, xj), c.h));
            assert(sides(xj, c.h, up, down));
            assert(column_at(*field, x@, t, eps, j as int, c));
        }
        if above.len() < n || below.len() < n {
            assert(too_short(*field, x@, t, eps));
            return None;
        }
        let ghost before = m@;
        let mut i: usize = 0;
        while i < n
            invariant
                i <= n,
                j < n,
                n == x@.len(),
                n * n <= usize::MAX,
                above@.len() >= n,
                below@.len() >= n,
                m@.len() == n * n,
                c == (Column { h, above: above@, below: below@ }),
                columns_of(*field, x@, t, eps, j as int, cols, before),
                forall|a: int|
                    #![trigger m@[a * n + j]]
                    0 <= a < i ==> entry_of(c, a, m@[a * n + j]),
                forall|a: int, b: int|
                    #![trigger m@[a * n + b]]
                    0 <= a < n && 0 <= b < j ==> m@[a * n + b] == before[a * n + b],
            decreases n - i,
        {
            let v: F = Num::fraction(1, 2).times(Num::of(above[i]).minus(Num::of(below[i]))).over(
                Num::of(h),
            ).value;
            proof {
                lemma_inside(i as int, j as int, n as int);
                lemma_inside(i as int, 0, n as int);
            }
            let ghost was = m@;
            m.set(i * n + j, v);
            proof {
                assert(entry_of(c, i as int, v));
                assert forall|a: int|
                    #![trigger m@[a * n + j]]
                    0 <= a < i + 1 implies entry_of(c, a, m@[a * n + j]) by {
                    lemma_inside(a, j as int, n as int);
                    if a != i {
                        lemma_apart(a, j as int, i as int, j as int, n as int);
                        assert(was[a * n + j] == m@[a * n + j]);
                    }
                }
                assert forall|a: int, b: int|
                    #![trigger m@[a * n + b]]
                    0 <= a < n && 0 <= b < j implies m@[a * n + b] == before[a * n + b] by {
                    lemma_inside(a, b, n as int);
                    lemma_apart(a, b, i as int, j as int, n as int);
                    assert(was[a * n + b] == m@[a * n + b]);
                }
            }
            i += 1;
        }
        proof {
            let all = cols.push(c);
            assert forall|k: int| 0 <= k < j + 1 implies column_at(
                *field,
                x@,
                t,
                eps,
                k,
                #[trigger] all[k],
            ) by {
                if k < j {
                    assert(all[k] == cols[k]);
                }
            }
            assert forall|a: int, b: int|
                #![trigger m@[a * n + b]]
                0 <= a < n && 0 <= b < j + 1 implies entry_of(all[b], a, m@[a * n + b]) by {
                if b < j {
                    assert(m@[a * n + b] == before[a * n + b]);
                    assert(all[b] == cols[b]);
                }
            }
            cols = all;
        }
        j += 1;
    }
    assert(columns_of(*field, x@, t, eps, x@.len() as int, cols, m@));
    Some(m)
}

proof fn lemma_inside(i: int, j: int, n: int)
    requires
        0 <= i < n,
        0 <= j < n,
    ensures
        0 <= i * n <= i * n + j < n * n,
{
    assert(i * n + n <= n * n) by (nonlinear_arith)
        requires
            0 <= i < n,
    ;
    assert(0 <= i * n) by (nonlinear_arith)
        requires
            0 <= i,
            0 <= n,
    ;
}

proof fn lemma_apart(a: int, b: int, i: int, j: int, n: int)
    requires
        0 <= b < n,
        0 <= j < n,
        (a, b) != (i, j),
    ensures
        a * n + b != i * n + j,
{
    if a * n + b == i * n + j {
        assert((a - i) * n == j - b) by (nonlinear_arith)
            requires
                a * n + b == i * n + j,
        ;
        if a > i {
            assert((a - i) * n >= n) by (nonlinear_arith)
                requires
                    a > i,
                    n > 0,
            ;
        } else if a < i {
            assert((a - i) * n <= -n) by (nonlinear_arith)
                requires
                    a < i,
                    n > 0,
            ;
        }
    }
}

} // verus!
