//! The equations of a boundary-value problem.

use vstd::prelude::*;

verus! {

/// The functions of a boundary-value problem and their derivatives. `y` is the
/// solution at one point, `p` the parameters; matrices are row-major.
pub trait BvpEquations<F> {
    /// Right-hand side of the differential equation.
    fn fun(&self, x: F, y: &Vec<F>, p: &Vec<F>) -> Vec<F>;

    /// Derivative of the right-hand side by `y`.
    fn jac_fy(&self, x: F, y: &Vec<F>, p: &Vec<F>) -> Vec<F>;

    /// Derivative of the right-hand side by `p`.
    fn jac_fp(&self, x: F, y: &Vec<F>, p: &Vec<F>) -> Vec<F>;

    /// Boundary conditions over the solution at both ends.
    fn bc(&self, ya: &Vec<F>, yb: &Vec<F>, p: &Vec<F>) -> Vec<F>;

    /// Derivative of the boundary conditions by the solution at the left end.
    fn jac_bc_ya(&self, ya: &Vec<F>, yb: &Vec<F>, p: &Vec<F>) -> Vec<F>;

    /// Derivative of the boundary conditions by the solution at the right end.
    fn jac_bc_yb(&self, ya: &Vec<F>, yb: &Vec<F>, p: &Vec<F>) -> Vec<F>;

    /// Derivative of the boundary conditions by `p`.
    fn jac_bc_p(&self, ya: &Vec<F>, yb: &Vec<F>, p: &Vec<F>) -> Vec<F>;

    /// Interior conditions over the solution at all ports.
    fn icond(&self, y_ports: &Vec<F>, p: &Vec<F>) -> Vec<F>;

    /// Derivative of the interior conditions by the solution at the ports.
    fn jac_ic_y(&self, y_ports: &Vec<F>, p: &Vec<F>) -> Vec<F>;

    /// Derivative of the interior conditions by `p`.
    fn jac_ic_p(&self, y_ports: &Vec<F>, p: &Vec<F>) -> Vec<F>;
}

/// A boundary-value problem.
pub struct BvpFns<F, P> {
    /// Number of equations.
    pub n_eq: usize,
    /// Number of parameters.
    pub n_params: usize,
    /// Number of boundary conditions.
    pub n_bc: usize,
    /// Where the interior conditions look at the solution.
    pub x_ports: Vec<F>,
    /// Number of interior conditions.
    pub n_ic: usize,
    pub equations: P,
}

/// `out` may be the right-hand side at `x`, `y`, `p`.
pub open spec fn fun_gives<F, P: BvpEquations<F>>(
    eqs: P,
    x: F,
    y: Seq<F>,
    p: Seq<F>,
    out: Seq<F>,
) -> bool {
    exists|yv: Vec<F>, pv: Vec<F>, ov: Vec<F>| #[trigger]
        call_ensures(P::fun, (&eqs, x, &yv, &pv), ov) && yv@ == y && pv@ == p && ov@ == out
}

/// `out` may be the derivative by `y` at `x`, `y`, `p`.
pub open spec fn fy_gives<F, P: BvpEquations<F>>(
    eqs: P,
    x: F,
    y: Seq<F>,
    p: Seq<F>,
    out: Seq<F>,
) -> bool {
    exists|yv: Vec<F>, pv: Vec<F>, ov: Vec<F>| #[trigger]
        call_ensures(P::jac_fy, (&eqs, x, &yv, &pv), ov) && yv@ == y && pv@ == p && ov@ == out
}

/// `out` may be the derivative by `p` at `x`, `y`, `p`.
pub open spec fn fp_gives<F, P: BvpEquations<F>>(
    eqs: P,
    x: F,
    y: Seq<F>,
    p: Seq<F>,
    out: Seq<F>,
) -> bool {
    exists|yv: Vec<F>, pv: Vec<F>, ov: Vec<F>| #[trigger]
        call_ensures(P::jac_fp, (&eqs, x, &yv, &pv), ov) && yv@ == y && pv@ == p && ov@ == out
}

/// `out` may be the boundary conditions.
pub open spec fn bc_gives<F, P: BvpEquations<F>>(
    eqs: P,
    ya: Seq<F>,
    yb: Seq<F>,
    p: Seq<F>,
    out: Seq<F>,
) -> bool {
    exists|av: Vec<F>, bv: Vec<F>, pv: Vec<F>, ov: Vec<F>| #[trigger]
        call_ensures(P::bc, (&eqs, &av, &bv, &pv), ov) && av@ == ya && bv@ == yb && pv@ == p && ov@
            == out
}

/// `out` may be the derivative of the boundary conditions by the left end.
pub open spec fn bc_ya_gives<F, P: BvpEquations<F>>(
    eqs: P,
    ya: Seq<F>,
    yb: Seq<F>,
    p: Seq<F>,
    out: Seq<F>,
) -> bool {
    exists|av: Vec<F>, bv: Vec<F>, pv: Vec<F>, ov: Vec<F>| #[trigger]
        call_ensures(P::jac_bc_ya, (&eqs, &av, &bv, &pv), ov) && av@ == ya && bv@ == yb && pv@ == p
            && ov@ == out
}

/// `out` may be the derivative of the boundary conditions by the right end.
pub open spec fn bc_yb_gives<F, P: BvpEquations<F>>(
    eqs: P,
    ya: Seq<F>,
    yb: Seq<F>,
    p: Seq<F>,
    out: Seq<F>,
) -> bool {
    exists|av: Vec<F>, bv: Vec<F>, pv: Vec<F>, ov: Vec<F>| #[trigger]
        call_ensures(P::jac_bc_yb, (&eqs, &av, &bv, &pv), ov) && av@ == ya && bv@ == yb && pv@ == p
            && ov@ == out
}

/// `out` may be the derivative of the boundary conditions by `p`.
pub open spec fn bc_p_gives<F, P: BvpEquations<F>>(
    eqs: P,
    ya: Seq<F>,
    yb: Seq<F>,
    p: Seq<F>,
    out: Seq<F>,
) -> bool {
    exists|av: Vec<F>, bv: Vec<F>, pv: Vec<F>, ov: Vec<F>| #[trigger]
        call_ensures(P::jac_bc_p, (&eqs, &av, &bv, &pv), ov) && av@ == ya && bv@ == yb && pv@ == p
            && ov@ == out
}

/// `out` may be the interior conditions.
pub open spec fn ic_gives<F, P: BvpEquations<F>>(
    eqs: P,
    ports: Seq<F>,
    p: Seq<F>,
    out: Seq<F>,
) -> bool {
    exists|yv: Vec<F>, pv: Vec<F>, ov: Vec<F>| #[trigger]
        call_ensures(P::icond, (&eqs, &yv, &pv), ov) && yv@ == ports && pv@ == p && ov@ == out
}

/// `out` may be the derivative of the interior conditions by the ports.
pub open spec fn ic_y_gives<F, P: BvpEquations<F>>(
    eqs: P,
    ports: Seq<F>,
    p: Seq<F>,
    out: Seq<F>,
) -> bool {
    exists|yv: Vec<F>, pv: Vec<F>, ov: Vec<F>| #[trigger]
        call_ensures(P::jac_ic_y, (&eqs, &yv, &pv), ov) && yv@ == ports && pv@ == p && ov@ == out
}

/// `out` may be the derivative of the interior conditions by `p`.
pub open spec fn ic_p_gives<F, P: BvpEquations<F>>(
    eqs: P,
    ports: Seq<F>,
    p: Seq<F>,
    out: Seq<F>,
) -> bool {
    exists|yv: Vec<F>, pv: Vec<F>, ov: Vec<F>| #[trigger]
        call_ensures(P::jac_ic_p, (&eqs, &yv, &pv), ov) && yv@ == ports && pv@ == p && ov@ == out
}

impl<F, P: BvpEquations<F>> BvpFns<F, P> {
    /// Number of unknowns on a mesh with `nodes` nodes.
    pub open spec fn unknowns(&self, nodes: int) -> int {
        nodes * self.n_eq + self.n_params
    }

    /// There are as many conditions as are needed, and the functions return
    /// vectors and matrices of the sizes that the counts say.
    pub open spec fn shaped(&self) -> bool {
        &&& self.n_bc + self.n_ic == self.n_eq + self.n_params
        &&& self.sizes()
    }

    /// The functions return vectors and matrices of the sizes that the counts say.
    #[verifier::opaque]
    pub open spec fn sizes(&self) -> bool {
        let (n, k, b, i) = (self.n_eq, self.n_params, self.n_bc, self.n_ic);
        &&& forall|x: F, y: Vec<F>, p: Vec<F>, out: Vec<F>|
            y@.len() == n && p@.len() == k && #[trigger] call_ensures(
                P::fun,
                (&self.equations, x, &y, &p),
                out,
            ) ==> out@.len() == n
        &&& forall|x: F, y: Vec<F>, p: Vec<F>, out: Vec<F>|
            y@.len() == n && p@.len() == k && #[trigger] call_ensures(
                P::jac_fy,
                (&self.equations, x, &y, &p),
                out,
            ) ==> out@.len() >= n * n
        &&& forall|x: F, y: Vec<F>, p: Vec<F>, out: Vec<F>|
            y@.len() == n && p@.len() == k && #[trigger] call_ensures(
                P::jac_fp,
                (&self.equations, x, &y, &p),
                out,
            ) ==> out@.len() >= n * k
        &&& forall|ya: Vec<F>, yb: Vec<F>, p: Vec<F>, out: Vec<F>|
            ya@.len() == n && yb@.len() == n && p@.len() == k && #[trigger] call_ensures(
                P::bc,
                (&self.equations, &ya, &yb, &p),
                out,
            ) ==> out@.len() == b
        &&& forall|ya: Vec<F>, yb: Vec<F>, p: Vec<F>, out: Vec<F>|
            ya@.len() == n && yb@.len() == n && p@.len() == k && #[trigger] call_ensures(
                P::jac_bc_ya,
                (&self.equations, &ya, &yb, &p),
                out,
            ) ==> out@.len() >= b * n
        &&& forall|ya: Vec<F>, yb: Vec<F>, p: Vec<F>, out: Vec<F>|
            ya@.len() == n && yb@.len() == n && p@.len() == k && #[trigger] call_ensures(
                P::jac_bc_yb,
                (&self.equations, &ya, &yb, &p),
                out,
            ) ==> out@.len() >= b * n
        &&& forall|ya: Vec<F>, yb: Vec<F>, p: Vec<F>, out: Vec<F>|
            ya@.len() == n && yb@.len() == n && p@.len() == k && #[trigger] call_ensures(
                P::jac_bc_p,
                (&self.equations, &ya, &yb, &p),
                out,
            ) ==> out@.len() >= b * k
        &&& forall|ports: Vec<F>, p: Vec<F>, out: Vec<F>|
            ports@.len() == self.x_ports@.len() * n && p@.len() == k && #[trigger] call_ensures(
                P::icond,
                (&self.equations, &ports, &p),
                out,
            ) ==> out@.len() == i
        &&& forall|ports: Vec<F>, p: Vec<F>, out: Vec<F>|
            ports@.len() == self.x_ports@.len() * n && p@.len() == k && #[trigger] call_ensures(
                P::jac_ic_y,
                (&self.equations, &ports, &p),
                out,
            ) ==> out@.len() >= i * (self.x_ports@.len() * n)
        &&& forall|ports: Vec<F>, p: Vec<F>, out: Vec<F>|
            ports@.len() == self.x_ports@.len() * n && p@.len() == k && #[trigger] call_ensures(
                P::jac_ic_p,
                (&self.equations, &ports, &p),
                out,
            ) ==> out@.len() >= i * k
    }

    pub(crate) fn fun(&self, x: F, y: &Vec<F>, p: &Vec<F>) -> (out: Vec<F>)
        requires
            self.shaped(),
            y@.len() == self.n_eq,
            p@.len() == self.n_params,
        ensures
            fun_gives(self.equations, x, y@, p@, out@),
            out@.len() == self.n_eq,
    {
        reveal(BvpFns::sizes);
        self.equations.fun(x, y, p)
    }

    pub(crate) fn fy(&self, x: F, y: &Vec<F>, p: &Vec<F>) -> (out: Vec<F>)
        requires
            self.shaped(),
            y@.len() == self.n_eq,
            p@.len() == self.n_params,
        ensures
            fy_gives(self.equations, x, y@, p@, out@),
            out@.len() >= self.n_eq * self.n_eq,
    {
        reveal(BvpFns::sizes);
        self.equations.jac_fy(x, y, p)
    }

    pub(crate) fn fp(&self, x: F, y: &Vec<F>, p: &Vec<F>) -> (out: Vec<F>)
        requires
            self.shaped(),
            y@.len() == self.n_eq,
            p@.len() == self.n_params,
        ensures
            fp_gives(self.equations, x, y@, p@, out@),
            out@.len() >= self.n_eq * self.n_params,
    {
        reveal(BvpFns::sizes);
        self.equations.jac_fp(x, y, p)
    }

    pub(crate) fn boundary(&self, ya: &Vec<F>, yb: &Vec<F>, p: &Vec<F>) -> (out: Vec<F>)
        requires
            self.shaped(),
            ya@.len() == self.n_eq,
            yb@.len() == self.n_eq,
            p@.len() == self.n_params,
        ensures
            bc_gives(self.equations, ya@, yb@, p@, out@),
            out@.len() == self.n_bc,
    {
        reveal(BvpFns::sizes);
        self.equations.bc(ya, yb, p)
    }

    pub(crate) fn boundary_ya(&self, ya: &Vec<F>, yb: &Vec<F>, p: &Vec<F>) -> (out: Vec<F>)
        requires
            self.shaped(),
            ya@.len() == self.n_eq,
            yb@.len() == self.n_eq,
            p@.len() == self.n_params,
        ensures
            bc_ya_gives(self.equations, ya@, yb@, p@, out@),
            out@.len() >= self.n_bc * self.n_eq,
    {
        reveal(BvpFns::sizes);
        self.equations.jac_bc_ya(ya, yb, p)
    }

    pub(crate) fn boundary_yb(&self, ya: &Vec<F>, yb: &Vec<F>, p: &Vec<F>) -> (out: Vec<F>)
        requires
            self.shaped(),
            ya@.len() == self.n_eq,
            yb@.len() == self.n_eq,
            p@.len() == self.n_params,
        ensures
            bc_yb_gives(self.equations, ya@, yb@, p@, out@),
            out@.len() >= self.n_bc * self.n_eq,
    {
        reveal(BvpFns::sizes);
        self.equations.jac_bc_yb(ya, yb, p)
    }

    pub(crate) fn boundary_p(&self, ya: &Vec<F>, yb: &Vec<F>, p: &Vec<F>) -> (out: Vec<F>)
        requires
            self.shaped(),
            ya@.len() == self.n_eq,
            yb@.len() == self.n_eq,
            p@.len() == self.n_params,
        ensures
            bc_p_gives(self.equations, ya@, yb@, p@, out@),
            out@.len() >= self.n_bc * self.n_params,
    {
        reveal(BvpFns::sizes);
        self.equations.jac_bc_p(ya, yb, p)
    }

    pub(crate) fn interior(&self, ports: &Vec<F>, p: &Vec<F>) -> (out: Vec<F>)
        requires
            self.shaped(),
            ports@.len() == self.x_ports@.len() * self.n_eq,
            p@.len() == self.n_params,
        ensures
            ic_gives(self.equations, ports@, p@, out@),
            out@.len() == self.n_ic,
    {
        reveal(BvpFns::sizes);
        self.equations.icond(ports, p)
    }

    pub(crate) fn interior_y(&self, ports: &Vec<F>, p: &Vec<F>) -> (out: Vec<F>)
        requires
            self.shaped(),
            ports@.len() == self.x_ports@.len() * self.n_eq,
            p@.len() == self.n_params,
        ensures
            ic_y_gives(self.equations, ports@, p@, out@),
            out@.len() >= self.n_ic * (self.x_ports@.len() * self.n_eq),
    {
        reveal(BvpFns::sizes);
        self.equations.jac_ic_y(ports, p)
    }

    pub(crate) fn interior_p(&self, ports: &Vec<F>, p: &Vec<F>) -> (out: Vec<F>)
        requires
            self.shaped(),
            ports@.len() == self.x_ports@.len() * self.n_eq,
            p@.len() == self.n_params,
        ensures
            ic_p_gives(self.equations, ports@, p@, out@),
            out@.len() >= self.n_ic * self.n_params,
    {
        reveal(BvpFns::sizes);
        self.equations.jac_ic_p(ports, p)
    }
}

} // verus!
