//! What holds of linear models as a whole.

use vstd::prelude::*;

use crate::linearize::assembly::{
    assembly_of, col_sizes, eliminated_with, input_sizes, input_total, lemma_offset_monotone,
    models_of, offset, output_sizes, output_total, part_cols, part_entries, part_rows, row_sizes,
    stack_entry, stack_place, stacked, state_sizes, state_total, system_of, system_with, Assembly,
    Part, System,
};
use crate::linearize::global::{
    all_pairs, driven, driven_with, global_of, global_with, injection_with, input_matrix,
    lemma_driven_sizes, sums_given, tapped, tapped_row, GlobalModel,
};
use crate::linearize::labels::texts;
use crate::linearize::local::{fitted, LinearBlock, LocalModel};
use crate::linearize::solve::{checked_solution, column, solves_columns};
use crate::linearize::wiring::{block_ids, interconnection, wire, wired, PortLayout};
use crate::matrix::{identity_less, place, product, row_product, sums};
use crate::model::ConnModel;
use crate::optim::linsolve::{factors, solution, Backend, Factored};
use crate::scalar::{adds, eqs, muls, ones, subs, zeros, Scalar};

verus! {

/// The operations of linearization have one outcome each.
pub open spec fn single_valued<F: Scalar>() -> bool {
    &&& forall|u: F, v: F| #[trigger] zeros(u) && #[trigger] zeros(v) ==> u == v
    &&& forall|u: F, v: F| #[trigger] ones(u) && #[trigger] ones(v) ==> u == v
    &&& forall|a: F, b: F, u: F, v: F|
        #![trigger adds(a, b, u), adds(a, b, v)]
        adds(a, b, u) && adds(a, b, v) ==> u == v
    &&& forall|a: F, b: F, u: F, v: F|
        #![trigger subs(a, b, u), subs(a, b, v)]
        subs(a, b, u) && subs(a, b, v) ==> u == v
    &&& forall|a: F, b: F, u: F, v: F|
        #![trigger muls(a, b, u), muls(a, b, v)]
        muls(a, b, u) && muls(a, b, v) ==> u == v
    &&& forall|a: F, b: F| #![trigger eqs(a, b, true)] !(eqs(a, b, true) && eqs(a, b, false))
}

/// Whatever factorizations the backend makes of one matrix, it finds one solution for
/// each right-hand side.
pub open spec fn one_solution<F: Scalar, B: Backend<F>>() -> bool {
    forall|
        a: Seq<F>,
        n: usize,
        f: Factored<B::Dense, B::Sparse>,
        g: Factored<B::Dense, B::Sparse>,
        rhs: Seq<F>,
        y: Seq<F>,
        z: Seq<F>,
    |
        #![trigger
            factors::<F, B>(a, n, f),
            factors::<F, B>(a, n, g),
            solution::<F, B>(f, rhs, y),
            solution::<F, B>(g, rhs, z)
        ]
        factors::<F, B>(a, n, f) && factors::<F, B>(a, n, g) && solution::<F, B>(f, rhs, y)
            && solution::<F, B>(g, rhs, z) && y.len() == z.len() ==> y == z
}

proof fn lemma_by_places<F>(rows: int, cols: int, y: Seq<F>, z: Seq<F>)
    requires
        0 <= rows,
        0 <= cols,
        y.len() == rows * cols,
        z.len() == rows * cols,
        forall|i: int, j: int|
            #![trigger y[place(cols, i, j)]]
            0 <= i < rows && 0 <= j < cols ==> y[place(cols, i, j)] == z[place(cols, i, j)],
    ensures
        y == z,
{
    assert forall|k: int| 0 <= k < y.len() implies y[k] == z[k] by {
        assert(cols > 0 && 0 <= k / cols < rows && 0 <= k % cols < cols && (k / cols) * cols + k
            % cols == k) by (nonlinear_arith)
            requires
                0 <= k < rows * cols,
                0 <= rows,
                0 <= cols,
        ;
        assert(place(cols, k / cols, k % cols) == k);
        assert(y[place(cols, k / cols, k % cols)] == z[place(cols, k / cols, k % cols)]);
    }
    assert(y =~= z);
}

proof fn lemma_sums_once<F: Scalar>(a: Seq<F>, b: Seq<F>, y: Seq<F>, z: Seq<F>)
    requires
        single_valued::<F>(),
        sums(a, b, y),
        sums(a, b, z),
    ensures
        y == z,
{
    assert forall|i: int| 0 <= i < y.len() implies y[i] == z[i] by {
        assert(adds(a[i], b[i], y[i]) && adds(a[i], b[i], z[i]));
    }
    assert(y =~= z);
}

proof fn lemma_sums_given_once<F: Scalar>(a: Seq<F>, b: Seq<F>, y: Seq<F>, z: Seq<F>)
    requires
        single_valued::<F>(),
        sums_given(a, b, y),
        sums_given(a, b, z),
    ensures
        y == z,
{
    if b.len() != 0 {
        lemma_sums_once(a, b, y, z);
    }
}

proof fn lemma_row_product_once<F: Scalar>(
    a: Seq<F>,
    b: Seq<F>,
    k: int,
    cols: int,
    i: int,
    j: int,
    p: int,
    u: F,
    v: F,
)
    requires
        single_valued::<F>(),
        row_product(a, b, k, cols, i, j, p, u),
        row_product(a, b, k, cols, i, j, p, v),
    ensures
        u == v,
    decreases p,
{
    if p > 0 {
        let left = a[place(k, i, p - 1)];
        let right = b[place(cols, p - 1, j)];
        let same_u = row_product(a, b, k, cols, i, j, p - 1, u);
        if same_u && row_product(a, b, k, cols, i, j, p - 1, v) {
            lemma_row_product_once(a, b, k, cols, i, j, p - 1, u, v);
        }
        if exists|s: F, q: F| #[trigger]
            adds(s, q, u) && muls(left, right, q) && row_product(a, b, k, cols, i, j, p - 1, s) {
            let (s, q) = choose|s: F, q: F| #[trigger]
                adds(s, q, u) && muls(left, right, q) && row_product(a, b, k, cols, i, j, p - 1, s);
            if exists|s2: F, q2: F| #[trigger]
                adds(s2, q2, v) && muls(left, right, q2) && row_product(
                    a,
                    b,
                    k,
                    cols,
                    i,
                    j,
                    p - 1,
                    s2,
                ) {
                let (s2, q2) = choose|s2: F, q2: F| #[trigger]
                    adds(s2, q2, v) && muls(left, right, q2) && row_product(
                        a,
                        b,
                        k,
                        cols,
                        i,
                        j,
                        p - 1,
                        s2,
                    );
                lemma_row_product_once(a, b, k, cols, i, j, p - 1, s, s2);
            }
        }
    }
}

proof fn lemma_product_once<F: Scalar>(
    a: Seq<F>,
    b: Seq<F>,
    rows: int,
    k: int,
    cols: int,
    y: Seq<F>,
    z: Seq<F>,
)
    requires
        single_valued::<F>(),
        0 <= rows,
        0 <= cols,
        product(a, b, rows, k, cols, y),
        product(a, b, rows, k, cols, z),
    ensures
        y == z,
{
    assert forall|i: int, j: int| 0 <= i < rows && 0 <= j < cols implies #[trigger] y[place(
        cols,
        i,
        j,
    )] == z[place(cols, i, j)] by {
        lemma_row_product_once(
            a,
            b,
            k,
            cols,
            i,
            j,
            k,
            y[place(cols, i, j)],
            z[place(cols, i, j)],
        );
    }
    lemma_by_places(rows, cols, y, z);
}

proof fn lemma_identity_less_once<F: Scalar>(m: Seq<F>, n: int, y: Seq<F>, z: Seq<F>)
    requires
        single_valued::<F>(),
        identity_less(m, n, y),
        identity_less(m, n, z),
    ensures
        y == z,
{
    assert forall|k: int| 0 <= k < y.len() implies y[k] == z[k] by {
        let e = choose|e: F| #[trigger]
            subs(e, m[k], y[k]) && if k / n == k % n {
                ones(e)
            } else {
                zeros(e)
            };
        let f = choose|f: F| #[trigger]
            subs(f, m[k], z[k]) && if k / n == k % n {
                ones(f)
            } else {
                zeros(f)
            };
        assert(e == f);
    }
    assert(y =~= z);
}

/// Both layouts begin the inputs and outputs of each block at the same numbers.
spec fn same_layout(l: PortLayout, m: PortLayout) -> bool {
    l.v_off@ == m.v_off@ && l.w_off@ == m.w_off@ && l.n_v == m.n_v && l.n_w == m.n_w
}

proof fn lemma_wired_once(
    keys: Seq<u64>,
    conns: Seq<ConnModel>,
    broken: Seq<(usize, usize)>,
    l: PortLayout,
    m: PortLayout,
    n: int,
    r: int,
    c: int,
)
    requires
        same_layout(l, m),
        wired(keys, conns, broken, l, n, r, c),
    ensures
        wired(keys, conns, broken, m, n, r, c),
{
    let (ci, t, q) = choose|ci: int, t: int, q: int|
        0 <= ci < n && #[trigger] wire(keys, conns, broken, l, ci, t, q, r, c);
    assert(wire(keys, conns, broken, m, ci, t, q, r, c));
}

proof fn lemma_interconnection_once<F: Scalar>(
    keys: Seq<u64>,
    conns: Seq<ConnModel>,
    broken: Seq<(usize, usize)>,
    l: PortLayout,
    m: PortLayout,
    n: int,
    y: Seq<F>,
    z: Seq<F>,
)
    requires
        single_valued::<F>(),
        same_layout(l, m),
        interconnection(keys, conns, broken, l, n, y),
        interconnection(keys, conns, broken, m, n, z),
    ensures
        y == z,
{
    let (rows, cols) = (l.n_v as int, l.n_w as int);
    assert forall|r: int, c: int| 0 <= r < rows && 0 <= c < cols implies #[trigger] y[place(
        cols,
        r,
        c,
    )] == z[place(cols, r, c)] by {
        if wired(keys, conns, broken, l, n, r, c) {
            lemma_wired_once(keys, conns, broken, l, m, n, r, c);
        } else if wired(keys, conns, broken, m, n, r, c) {
            lemma_wired_once(keys, conns, broken, m, l, n, r, c);
        }
    }
    lemma_by_places(rows, cols, y, z);
}

proof fn lemma_fitted_once<F: Scalar>(
    jac: Option<(Vec<F>, usize, usize)>,
    rows: int,
    cols: int,
    y: Seq<F>,
    z: Seq<F>,
)
    requires
        single_valued::<F>(),
        0 <= rows,
        0 <= cols,
        fitted(jac, rows, cols, y),
        fitted(jac, rows, cols, z),
    ensures
        y == z,
{
    assert forall|i: int, j: int| 0 <= i < rows && 0 <= j < cols implies #[trigger] y[place(
        cols,
        i,
        j,
    )] == z[place(cols, i, j)] by {
        let v = z[place(cols, i, j)];
    }
    lemma_by_places(rows, cols, y, z);
}

/// Both lists of models have the same shapes and entries in one of their matrices.
spec fn same_part<F: Scalar>(
    models: Seq<LocalModel<F>>,
    others: Seq<LocalModel<F>>,
    part: Part,
) -> bool {
    &&& models.len() == others.len()
    &&& row_sizes(models, part) == row_sizes(others, part)
    &&& col_sizes(models, part) == col_sizes(others, part)
    &&& forall|i: int|
        0 <= i < models.len() ==> part_entries(#[trigger] models[i], part) == part_entries(
            others[i],
            part,
        )
}

proof fn lemma_models_once<F: Scalar>(
    blocks: Seq<LinearBlock<F>>,
    models: Seq<LocalModel<F>>,
    others: Seq<LocalModel<F>>,
    part: Part,
)
    requires
        single_valued::<F>(),
        models_of(blocks, models),
        models_of(blocks, others),
    ensures
        same_part(models, others, part),
{
    assert forall|i: int| 0 <= i < models.len() implies part_entries(#[trigger] models[i], part)
        == part_entries(others[i], part) && part_rows(models[i], part) == part_rows(
        others[i],
        part,
    ) && part_cols(models[i], part) == part_cols(others[i], part) by {
        let (m, o, b) = (models[i], others[i], blocks[i]);
        assert(b.models(m) && b.models(o));
        let (nx, nu, ny) = (b.nx as int, b.nu as int, b.ny as int);
        lemma_fitted_once(b.f_x, nx, nx, m.a@, o.a@);
        lemma_fitted_once(b.f_u, nx, nu, m.b@, o.b@);
        lemma_fitted_once(b.g_x, ny, nx, m.c@, o.c@);
        lemma_fitted_once(b.g_u, ny, nu, m.d@, o.d@);
    }
    assert(row_sizes(models, part) =~= row_sizes(others, part));
    assert(col_sizes(models, part) =~= col_sizes(others, part));
}

/// Where in the blocks a number falls.
proof fn lemma_in_block(sizes: Seq<usize>, n: int, at: int) -> (r: (int, int))
    requires
        0 <= n <= sizes.len(),
        0 <= at < offset(sizes, n),
    ensures
        0 <= r.0 < n,
        0 <= r.1 < sizes[r.0],
        offset(sizes, r.0) + r.1 == at,
    decreases n,
{
    if at < offset(sizes, n - 1) {
        lemma_in_block(sizes, n - 1, at)
    } else {
        (n - 1, at - offset(sizes, n - 1))
    }
}

proof fn lemma_stacked_once<F: Scalar>(
    models: Seq<LocalModel<F>>,
    others: Seq<LocalModel<F>>,
    part: Part,
    y: Seq<F>,
    z: Seq<F>,
)
    requires
        single_valued::<F>(),
        same_part(models, others, part),
        stacked(models, part, y),
        stacked(others, part, z),
    ensures
        y == z,
{
    let n = models.len() as int;
    let (rs, cs) = (row_sizes(models, part), col_sizes(models, part));
    let (rows, cols) = (offset(rs, n), offset(cs, n));
    lemma_offset_monotone(rs, 0, n);
    lemma_offset_monotone(cs, 0, n);
    assert forall|p: int, q: int| 0 <= p < rows && 0 <= q < cols implies #[trigger] y[place(
        cols,
        p,
        q,
    )] == z[place(cols, p, q)] by {
        let (i, r) = lemma_in_block(rs, n, p);
        let (j, c) = lemma_in_block(cs, n, q);
        assert(rs[i] == part_rows(models[i], part) && cs[j] == part_cols(models[j], part));
        assert(cs[i] == part_cols(models[i], part));
        assert(row_sizes(others, part)[i] == part_rows(others[i], part));
        assert(col_sizes(others, part)[j] == part_cols(others[j], part));
        assert(col_sizes(others, part)[i] == part_cols(others[i], part));
        assert(stack_place(models, part, i, r, j, c) == place(cols, p, q));
        assert(stack_place(others, part, i, r, j, c) == place(cols, p, q));
        assert(stack_entry(models, part, i, r, j, c, y[stack_place(models, part, i, r, j, c)]));
        assert(stack_entry(others, part, i, r, j, c, z[stack_place(others, part, i, r, j, c)]));
        assert(part_entries(models[i], part) == part_entries(others[i], part));
    }
    lemma_by_places(rows, cols, y, z);
}

proof fn lemma_columns_once<F: Scalar, B: Backend<F>>(
    sys: Seq<F>,
    rhs: Seq<F>,
    n: usize,
    cols: int,
    y: Seq<F>,
    z: Seq<F>,
)
    requires
        one_solution::<F, B>(),
        0 <= cols,
        solves_columns::<F, B>(sys, rhs, n, cols, y),
        solves_columns::<F, B>(sys, rhs, n, cols, z),
    ensures
        y == z,
{
    assert forall|i: int, j: int| 0 <= i < n && 0 <= j < cols implies #[trigger] y[place(
        cols,
        i,
        j,
    )] == z[place(cols, i, j)] by {
        let (u, v) = (column(y, n as int, cols, j), column(z, n as int, cols, j));
        let b = column(rhs, n as int, cols, j);
        assert(checked_solution::<F, B>(sys, b, n, u));
        assert(checked_solution::<F, B>(sys, b, n, v));
        let f = choose|f: Factored<B::Dense, B::Sparse>| #[trigger]
            factors::<F, B>(sys, n, f) && solution::<F, B>(f, b, u);
        let g = choose|g: Factored<B::Dense, B::Sparse>| #[trigger]
            factors::<F, B>(sys, n, g) && solution::<F, B>(g, b, v);
        assert(u == v);
        assert(u[i] == y[place(cols, i, j)] && v[i] == z[place(cols, i, j)]);
    }
    lemma_by_places(n as int, cols, y, z);
}

/// Both systems hold the same matrices.
spec fn same_system<F>(s: System<F>, t: System<F>) -> bool {
    &&& s.a_b@ == t.a_b@
    &&& s.b_b@ == t.b_b@
    &&& s.c_b@ == t.c_b@
    &&& s.d_b@ == t.d_b@
    &&& s.l@ == t.l@
    &&& s.lc@ == t.lc@
    &&& s.sys@ == t.sys@
}

proof fn lemma_totals<F>(blocks: Seq<LinearBlock<F>>)
    ensures
        0 <= input_total(blocks),
        0 <= output_total(blocks),
        0 <= state_total(blocks),
{
    let n = blocks.len() as int;
    lemma_offset_monotone(input_sizes(blocks), 0, n);
    lemma_offset_monotone(output_sizes(blocks), 0, n);
    lemma_offset_monotone(state_sizes(blocks), 0, n);
}

proof fn lemma_system_once<F: Scalar>(
    blocks: Seq<LinearBlock<F>>,
    conns: Seq<ConnModel>,
    broken: Seq<(usize, usize)>,
    s: System<F>,
    t: System<F>,
)
    requires
        single_valued::<F>(),
        system_of(blocks, conns, broken, s),
        system_of(blocks, conns, broken, t),
    ensures
        same_system(s, t),
{
    let (models, ld) = choose|models: Seq<LocalModel<F>>, ld: Seq<F>| #[trigger]
        system_with(blocks, conns, broken, models, ld, s);
    let (others, le) = choose|others: Seq<LocalModel<F>>, le: Seq<F>| #[trigger]
        system_with(blocks, conns, broken, others, le, t);
    let (v, w, x) = (input_total(blocks), output_total(blocks), state_total(blocks));
    lemma_totals(blocks);
    lemma_models_once(blocks, models, others, Part::A);
    lemma_models_once(blocks, models, others, Part::B);
    lemma_models_once(blocks, models, others, Part::C);
    lemma_models_once(blocks, models, others, Part::D);
    lemma_stacked_once(models, others, Part::A, s.a_b@, t.a_b@);
    lemma_stacked_once(models, others, Part::B, s.b_b@, t.b_b@);
    lemma_stacked_once(models, others, Part::C, s.c_b@, t.c_b@);
    lemma_stacked_once(models, others, Part::D, s.d_b@, t.d_b@);
    let (l, m) = (s.layout.ports, t.layout.ports);
    assert(l.v_off@ =~= m.v_off@);
    assert(l.w_off@ =~= m.w_off@);
    lemma_interconnection_once(
        block_ids(blocks),
        conns,
        broken,
        l,
        m,
        conns.len() as int,
        s.l@,
        t.l@,
    );
    lemma_product_once(s.l@, s.c_b@, v, w, x, s.lc@, t.lc@);
    lemma_product_once(s.l@, s.d_b@, v, w, v, ld, le);
    lemma_identity_less_once(ld, v, s.sys@, t.sys@);
}

/// Both assemblies hold the same matrices.
spec fn same_assembly<F>(p: Assembly<F>, q: Assembly<F>) -> bool {
    same_system(p.system, q.system) && p.a@ == q.a@ && p.c_full@ == q.c_full@
}

proof fn lemma_assembly_once<F: Scalar, B: Backend<F>>(
    blocks: Seq<LinearBlock<F>>,
    conns: Seq<ConnModel>,
    broken: Seq<(usize, usize)>,
    p: Assembly<F>,
    q: Assembly<F>,
)
    requires
        single_valued::<F>(),
        one_solution::<F, B>(),
        assembly_of::<F, B>(blocks, conns, broken, p),
        assembly_of::<F, B>(blocks, conns, broken, q),
    ensures
        same_assembly(p, q),
{
    let (v, w, x) = (input_total(blocks), output_total(blocks), state_total(blocks));
    lemma_totals(blocks);
    lemma_system_once(blocks, conns, broken, p.system, q.system);
    let (g, bg, dg) = choose|g: Seq<F>, bg: Seq<F>, dg: Seq<F>| #[trigger]
        eliminated_with::<F, B>(blocks, p, g, bg, dg);
    let (h, bh, dh) = choose|h: Seq<F>, bh: Seq<F>, dh: Seq<F>| #[trigger]
        eliminated_with::<F, B>(blocks, q, h, bh, dh);
    let s = p.system;
    lemma_columns_once::<F, B>(s.sys@, s.lc@, v as usize, x, g, h);
    lemma_product_once(s.b_b@, g, x, v, x, bg, bh);
    lemma_sums_once(bg, s.a_b@, p.a@, q.a@);
    lemma_product_once(s.d_b@, g, w, v, x, dg, dh);
    lemma_sums_once(dg, s.c_b@, p.c_full@, q.c_full@);
}

proof fn lemma_inputs_once<F: Scalar>(
    blocks: Seq<LinearBlock<F>>,
    cols: Seq<Vec<(usize, usize)>>,
    y: Seq<F>,
    z: Seq<F>,
)
    requires
        single_valued::<F>(),
        input_matrix(blocks, cols, y),
        input_matrix(blocks, cols, z),
    ensures
        y == z,
{
    let n = cols.len() as int;
    lemma_totals(blocks);
    assert forall|v: int, c: int|
        0 <= v < input_total(blocks) && 0 <= c < n implies #[trigger] y[place(n, v, c)]
        == z[place(n, v, c)] by {
        let e = z[place(n, v, c)];
    }
    lemma_by_places(input_total(blocks), n, y, z);
}

proof fn lemma_driven_once<F: Scalar, B: Backend<F>>(
    blocks: Seq<LinearBlock<F>>,
    p: Assembly<F>,
    q: Assembly<F>,
    ev: Seq<F>,
    n: int,
    b: Seq<F>,
    d: Seq<F>,
    b2: Seq<F>,
    d2: Seq<F>,
)
    requires
        single_valued::<F>(),
        one_solution::<F, B>(),
        0 <= n,
        same_assembly(p, q),
        driven::<F, B>(blocks, p, ev, Seq::empty(), Seq::empty(), n, b, d),
        driven::<F, B>(blocks, q, ev, Seq::empty(), Seq::empty(), n, b2, d2),
    ensures
        b == b2,
        d == d2,
{
    let none = Seq::<F>::empty();
    let (v, w, x) = (input_total(blocks), output_total(blocks), state_total(blocks));
    lemma_totals(blocks);
    if n == 0 {
        assert(b =~= b2 && d =~= d2);
    } else {
        let (rhs, g, bg, dg) = choose|rhs: Seq<F>, g: Seq<F>, bg: Seq<F>, dg: Seq<F>| #[trigger]
            driven_with::<F, B>(blocks, p, ev, none, none, n, rhs, g, bg, dg, b, d);
        let (rhs2, h, bh, dh) = choose|rhs2: Seq<F>, h: Seq<F>, bh: Seq<F>, dh: Seq<F>| #[trigger]
            driven_with::<F, B>(blocks, q, ev, none, none, n, rhs2, h, bh, dh, b2, d2);
        let le = choose|le: Seq<F>| #[trigger] injection_with(blocks, p, ev, none, n, le, rhs);
        let le2 = choose|le2: Seq<F>| #[trigger] injection_with(blocks, q, ev, none, n, le2, rhs2);
        assert(le =~= le2);
        lemma_sums_given_once(le, ev, rhs, rhs2);
        let s = p.system;
        lemma_columns_once::<F, B>(s.sys@, rhs, v as usize, n, g, h);
        lemma_product_once(s.b_b@, g, x, v, n, bg, bh);
        lemma_sums_given_once(bg, none, b, b2);
        lemma_product_once(s.d_b@, g, w, v, n, dg, dh);
        lemma_sums_given_once(dg, none, d, d2);
    }
}

proof fn lemma_tapped_once<F: Scalar>(
    blocks: Seq<LinearBlock<F>>,
    taps: Seq<Option<(usize, usize)>>,
    full: Seq<F>,
    n: int,
    y: Seq<F>,
    z: Seq<F>,
)
    requires
        single_valued::<F>(),
        0 <= n,
        tapped(blocks, taps, full, n, y),
        tapped(blocks, taps, full, n, z),
    ensures
        y == z,
{
    assert forall|k: int, j: int| 0 <= k < taps.len() && 0 <= j < n implies #[trigger] y[place(
        n,
        k,
        j,
    )] == z[place(n, k, j)] by {
        assert(tapped_row(blocks, taps[k], full, n, k, y));
        assert(tapped_row(blocks, taps[k], full, n, k, z));
        let v = z[place(n, k, j)];
    }
    lemma_by_places(taps.len() as int, n, y, z);
}

/// Both models hold the same matrices and labels.
pub open spec fn same_model<F>(g: GlobalModel<F>, h: GlobalModel<F>) -> bool {
    &&& g.nx == h.nx && g.nu == h.nu && g.ny == h.ny
    &&& g.a@ == h.a@ && g.b@ == h.b@ && g.c@ == h.c@ && g.d@ == h.d@
    &&& texts(g.state_labels@) == texts(h.state_labels@)
    &&& texts(g.input_labels@) == texts(h.input_labels@)
    &&& texts(g.output_labels@) == texts(h.output_labels@)
}

/// Linearization is repeatable: where each operation has one outcome, and the backend
/// one solution for each system, two linear models of one diagram are the same.
pub proof fn law_linearization_is_repeatable<F: Scalar, B: Backend<F>>(
    blocks: Seq<LinearBlock<F>>,
    conns: Seq<ConnModel>,
    in_cols: Seq<Vec<(usize, usize)>>,
    out_rows: Seq<Option<(usize, usize)>>,
    g: GlobalModel<F>,
    h: GlobalModel<F>,
)
    requires
        single_valued::<F>(),
        one_solution::<F, B>(),
        global_of::<F, B>(blocks, conns, in_cols, out_rows, g),
        global_of::<F, B>(blocks, conns, in_cols, out_rows, h),
    ensures
        same_model(g, h),
{
    let n = in_cols.len() as int;
    let (p, ev, d) = choose|p: Assembly<F>, ev: Seq<F>, d: Seq<F>| #[trigger]
        global_with::<F, B>(blocks, conns, in_cols, out_rows, p, ev, d, g);
    let (q, ev2, d2) = choose|q: Assembly<F>, ev2: Seq<F>, d2: Seq<F>| #[trigger]
        global_with::<F, B>(blocks, conns, in_cols, out_rows, q, ev2, d2, h);
    lemma_totals(blocks);
    lemma_assembly_once::<F, B>(
        blocks,
        conns,
        all_pairs(in_cols),
        p,
        q,
    );
    lemma_inputs_once(blocks, in_cols, ev, ev2);
    lemma_driven_once::<F, B>(blocks, p, q, ev, n, g.b@, d, h.b@, d2);
    lemma_tapped_once(blocks, out_rows, p.c_full@, state_total(blocks), g.c@, h.c@);
    lemma_tapped_once(blocks, out_rows, d, n, g.d@, h.d@);
    assert(texts(g.input_labels@) =~= texts(h.input_labels@));
    assert(texts(g.output_labels@) =~= texts(h.output_labels@));
}

/// The matrices of a linear model have the sizes that its dimensions say, with a
/// column for each input and a row for each output.
pub proof fn law_model_is_sized<F: Scalar, B: Backend<F>>(
    blocks: Seq<LinearBlock<F>>,
    conns: Seq<ConnModel>,
    in_cols: Seq<Vec<(usize, usize)>>,
    out_rows: Seq<Option<(usize, usize)>>,
    g: GlobalModel<F>,
)
    requires
        global_of::<F, B>(blocks, conns, in_cols, out_rows, g),
    ensures
        g.nu == in_cols.len() && g.ny == out_rows.len(),
        g.a@.len() == g.nx * g.nx,
        g.b@.len() == g.nx * g.nu,
        g.c@.len() == g.ny * g.nx,
        g.d@.len() == g.ny * g.nu,
        g.input_labels@.len() == g.nu && g.output_labels@.len() == g.ny,
{
    let n = in_cols.len() as int;
    let (p, ev, d) = choose|p: Assembly<F>, ev: Seq<F>, d: Seq<F>| #[trigger]
        global_with::<F, B>(blocks, conns, in_cols, out_rows, p, ev, d, g);
    let (glc, bg, dg) = choose|glc: Seq<F>, bg: Seq<F>, dg: Seq<F>| #[trigger]
        eliminated_with::<F, B>(blocks, p, glc, bg, dg);
    lemma_driven_sizes::<F, B>(blocks, p, ev, Seq::empty(), Seq::empty(), n, g.b@, d);
}

} // verus!
