//! Linear models of single blocks.

use vstd::prelude::*;

use crate::error::SimError;
use crate::matrix::{all_zero, lemma_earlier_place, place, zero_vec};
use crate::scalar::{zeros, Scalar};

verus! {

/// Linear model `dx/dt = A x + B u`, `y = C x + D u` of a block. The matrices are
/// dense and row-major; a dimension may be zero.
#[derive(Debug)]
pub struct LocalModel<F> {
    pub a: Vec<F>,
    pub b: Vec<F>,
    pub c: Vec<F>,
    pub d: Vec<F>,
    pub nx: usize,
    pub nu: usize,
    pub ny: usize,
}

impl<F: Scalar> LocalModel<F> {
    /// The matrices have the sizes that the dimensions say.
    pub open spec fn well_shaped(&self) -> bool {
        &&& self.a@.len() == self.nx * self.nx
        &&& self.b@.len() == self.nx * self.nu
        &&& self.c@.len() == self.ny * self.nx
        &&& self.d@.len() == self.ny * self.nu
    }

    /// The model of a block whose output depends on nothing.
    pub fn zeros(nx: usize, nu: usize, ny: usize) -> (m: Self)
        requires
            nx * nx <= usize::MAX,
            nx * nu <= usize::MAX,
            ny * nx <= usize::MAX,
            ny * nu <= usize::MAX,
        ensures
            m.well_shaped(),
            m.nx == nx && m.nu == nu && m.ny == ny,
            all_zero(nx * nx, m.a@),
            all_zero(nx * nu, m.b@),
            all_zero(ny * nx, m.c@),
            all_zero(ny * nu, m.d@),
    {
        Self {
            a: zero_vec(nx * nx),
            b: zero_vec(nx * nu),
            c: zero_vec(ny * nx),
            d: zero_vec(ny * nu),
            nx,
            nu,
            ny,
        }
    }

    /// Entry `(i, j)` of a row-major matrix with `cols` columns.
    pub fn at(m: &[F], cols: usize, i: usize, j: usize) -> (v: F)
        requires
            place(cols as int, i as int, j as int) < m@.len(),
        ensures
            v == m@[place(cols as int, i as int, j as int)],
    {
        let len: usize = m.len();
        assert(place(cols as int, i as int, j as int) < len);
        assert(0 <= i * cols <= place(cols as int, i as int, j as int)) by (nonlinear_arith)
            requires
                0 <= i,
                0 <= cols,
                0 <= j,
                place(cols as int, i as int, j as int) == i * cols + j,
        ;
        m[i * cols + j]
    }
}

/// A Jacobian: its row-major values, its rows and its columns.
pub type Jacobian<F> = (Vec<F>, usize, usize);

/// Every entry that a matrix with the given shape takes over is there.
pub open spec fn covers<F>(jac: Option<Jacobian<F>>, rows: int, cols: int) -> bool {
    jac matches Some((values, n_rows, n_cols)) ==> forall|i: int, j: int|
        #![trigger place(n_cols as int, i, j)]
        0 <= i < rows && i < n_rows && 0 <= j < cols && j < n_cols ==> place(n_cols as int, i, j)
            < values@.len()
}

/// `v` is entry `(i, j)` of the fitted Jacobian: the entry itself, or zero where
/// the Jacobian has none.
pub open spec fn fitted_entry<F: Scalar>(jac: Option<Jacobian<F>>, i: int, j: int, v: F) -> bool {
    match jac {
        None => zeros(v),
        Some((values, n_rows, n_cols)) => if i < n_rows && j < n_cols {
            v == values@[place(n_cols as int, i, j)]
        } else {
            zeros(v)
        },
    }
}

/// `out` is the Jacobian cut and padded with zeros to `rows` by `cols`.
pub open spec fn fitted<F: Scalar>(jac: Option<Jacobian<F>>, rows: int, cols: int, out: Seq<F>) -> bool {
    &&& out.len() == rows * cols
    &&& forall|i: int, j: int|
        #![trigger out[place(cols, i, j)]]
        0 <= i < rows && 0 <= j < cols ==> fitted_entry(jac, i, j, out[place(cols, i, j)])
}

fn fit_entry<F: Scalar>(jac: &Option<Jacobian<F>>, i: usize, j: usize, rows: usize, cols: usize) -> (v: F)
    requires
        covers(*jac, rows as int, cols as int),
        i < rows,
        j < cols,
    ensures
        fitted_entry(*jac, i as int, j as int, v),
{
    match jac {
        None => F::zero(),
        Some((values, n_rows, n_cols)) => {
            if i < *n_rows && j < *n_cols {
                assert(place(*n_cols as int, i as int, j as int) < values@.len());
                LocalModel::at(values.as_slice(), *n_cols, i, j)
            } else {
                F::zero()
            }
        },
    }
}

/// The Jacobian cut and padded with zeros to `rows` by `cols`. The shape comes
/// from the block: a port that the Jacobian does not mention still has its row
/// or column.
pub fn fit<F: Scalar>(jac: &Option<Jacobian<F>>, rows: usize, cols: usize) -> (out: Vec<F>)
    requires
        covers(*jac, rows as int, cols as int),
        rows * cols <= usize::MAX,
    ensures
        fitted(*jac, rows as int, cols as int, out@),
{
    let mut out: Vec<F> = Vec::new();
    let mut i: usize = 0;
    assert(0 * cols == 0) by (nonlinear_arith);
    while i < rows
        invariant
            i <= rows,
            covers(*jac, rows as int, cols as int),
            out@.len() == i * cols,
            forall|p: int, q: int|
                #![trigger out@[place(cols as int, p, q)]]
                0 <= p < i && 0 <= q < cols ==> fitted_entry(
                    *jac,
                    p,
                    q,
                    out@[place(cols as int, p, q)],
                ),
        decreases rows - i,
    {
        let mut j: usize = 0;
        while j < cols
            invariant
                j <= cols,
                i < rows,
                covers(*jac, rows as int, cols as int),
                out@.len() == i * cols + j,
                forall|p: int, q: int|
                    #![trigger out@[place(cols as int, p, q)]]
                    0 <= p && 0 <= q < cols && (p < i || p == i && q < j) ==> fitted_entry(
                        *jac,
                        p,
                        q,
                        out@[place(cols as int, p, q)],
                    ),
            decreases cols - j,
        {
            let v: F = fit_entry(jac, i, j, rows, cols);
            let ghost before = out@;
            out.push(v);
            proof {
                assert forall|p: int, q: int|
                    0 <= p && 0 <= q < cols && (p < i || p == i && q < j + 1) implies fitted_entry(
                    *jac,
                    p,
                    q,
                    #[trigger] out@[place(cols as int, p, q)],
                ) by {
                    if p < i || q < j {
                        lemma_earlier_place(cols as int, p, q, i as int, j as int);
                        assert(out@[place(cols as int, p, q)] == before[place(cols as int, p, q)]);
                    }
                }
            }
            j += 1;
        }
        assert((i + 1) * cols == i * cols + cols) by (nonlinear_arith);
        i += 1;
    }
    out
}

/// Derivatives of one equation with respect to a named parameter.
#[derive(Debug)]
pub struct ParamColumn<F> {
    pub name: String,
    pub values: Vec<F>,
}

/// What linearization reads of a block at the operating point.
#[derive(Debug)]
pub struct LinearBlock<F> {
    pub key: u64,
    pub kind_name: String,
    /// Switching and discrete blocks have no linear model.
    pub linearizable: bool,
    pub nx: usize,
    pub nu: usize,
    pub ny: usize,
    /// Jacobians of the derivative with respect to state and input.
    pub f_x: Option<Jacobian<F>>,
    pub f_u: Option<Jacobian<F>>,
    /// Jacobians of the output with respect to state and input.
    pub g_x: Option<Jacobian<F>>,
    pub g_u: Option<Jacobian<F>>,
    pub f_params: Vec<ParamColumn<F>>,
    pub g_params: Vec<ParamColumn<F>>,
}

/// `k` is the first column with the given name.
pub open spec fn first_named<F>(params: Seq<ParamColumn<F>>, name: Seq<char>, k: int) -> bool {
    0 <= k < params.len() && params[k].name@ == name && forall|j: int|
        0 <= j < k ==> (#[trigger] params[j]).name@ != name
}

/// `out` holds the derivatives with respect to the named parameter, cut and
/// padded with zeros to `n` elements; a parameter that the equation does not have
/// contributes nothing.
pub open spec fn param_derivative<F: Scalar>(
    params: Seq<ParamColumn<F>>,
    name: Seq<char>,
    n: int,
    out: Seq<F>,
) -> bool {
    &&& out.len() == n
    &&& if exists|k: int| first_named(params, name, k) {
        let values = params[choose|k: int| first_named(params, name, k)].values@;
        forall|i: int|
            #![trigger out[i]]
            0 <= i < n ==> if i < values.len() {
                out[i] == values[i]
            } else {
                zeros(out[i])
            }
    } else {
        all_zero(n, out)
    }
}

fn derivative<F: Scalar>(params: &Vec<ParamColumn<F>>, name: &String, n: usize) -> (out: Vec<F>)
    ensures
        param_derivative(params@, name@, n as int, out@),
{
    let mut k: usize = 0;
    while k < params.len()
        invariant
            k <= params.len(),
            forall|j: int| 0 <= j < k ==> (#[trigger] params@[j]).name@ != name@,
        decreases params.len() - k,
    {
        if params[k].name == *name {
            proof {
                assert(first_named(params@, name@, k as int));
                let c = choose|c: int| first_named(params@, name@, c);
                if c < k {
                    assert(params@[c].name@ != name@);
                }
                if k < c {
                    assert(params@[k as int].name@ != name@);
                }
            }
            let values: &Vec<F> = &params[k].values;
            let mut out: Vec<F> = Vec::with_capacity(n);
            let mut i: usize = 0;
            while i < n
                invariant
                    i <= n,
                    out@.len() == i,
                    forall|q: int|
                        #![trigger out@[q]]
                        0 <= q < i ==> if q < values@.len() {
                            out@[q] == values@[q]
                        } else {
                            zeros(out@[q])
                        },
                decreases n - i,
            {
                if i < values.len() {
                    out.push(values[i]);
                } else {
                    out.push(F::zero());
                }
                i += 1;
            }
            return out;
        }
        k += 1;
    }
    zero_vec(n)
}

impl<F: Scalar> LinearBlock<F> {
    /// The dimensions fit in memory, and the Jacobians hold what they are asked.
    pub open spec fn well_formed(&self) -> bool {
        &&& self.nx * self.nx <= usize::MAX
        &&& self.nx * self.nu <= usize::MAX
        &&& self.ny * self.nx <= usize::MAX
        &&& self.ny * self.nu <= usize::MAX
        &&& covers(self.f_x, self.nx as int, self.nx as int)
        &&& covers(self.f_u, self.nx as int, self.nu as int)
        &&& covers(self.g_x, self.ny as int, self.nx as int)
        &&& covers(self.g_u, self.ny as int, self.nu as int)
    }

    /// `m` is the linear model of the block.
    pub open spec fn models(&self, m: LocalModel<F>) -> bool {
        &&& m.nx == self.nx && m.nu == self.nu && m.ny == self.ny
        &&& fitted(self.f_x, self.nx as int, self.nx as int, m.a@)
        &&& fitted(self.f_u, self.nx as int, self.nu as int, m.b@)
        &&& fitted(self.g_x, self.ny as int, self.nx as int, m.c@)
        &&& fitted(self.g_u, self.ny as int, self.nu as int, m.d@)
    }

    /// The linear model of the block; a block without one says so.
    pub fn to_statespace(&self) -> (r: Result<LocalModel<F>, SimError<F>>)
        requires
            self.well_formed(),
        ensures
            r is Ok <==> self.linearizable,
            r is Ok ==> self.models(r->Ok_0) && r->Ok_0.well_shaped(),
            r is Err ==> (r->Err_0 matches SimError::NotLinearizable(name) && name@
                == self.kind_name@),
    {
        if !self.linearizable {
            return Err(SimError::NotLinearizable(self.kind_name.clone()));
        }
        Ok(
            LocalModel {
                a: fit(&self.f_x, self.nx, self.nx),
                b: fit(&self.f_u, self.nx, self.nu),
                c: fit(&self.g_x, self.ny, self.nx),
                d: fit(&self.g_u, self.ny, self.nu),
                nx: self.nx,
                nu: self.nu,
                ny: self.ny,
            },
        )
    }

    /// Derivatives of the state derivative and of the output with respect to the
    /// named parameter.
    pub fn param_sensitivity(&self, name: &String) -> (r: (Vec<F>, Vec<F>))
        ensures
            param_derivative(self.f_params@, name@, self.nx as int, r.0@),
            param_derivative(self.g_params@, name@, self.ny as int, r.1@),
    {
        (derivative(&self.f_params, name, self.nx), derivative(&self.g_params, name, self.ny))
    }
}

} // verus!
