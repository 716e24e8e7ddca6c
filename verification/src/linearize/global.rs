//! The linear model of a whole diagram, and its steady-state sensitivity.

use vstd::prelude::*;

use crate::error::SimError;
use crate::linearize::assembly::{
    all_linearizable, assemblable, assembly_of, input_sizes, input_total, offset, output_sizes,
    output_total, refusal, state_layout, state_sizes, state_total, Assembly,
};
use crate::linearize::labels::{
    block_keys, key_texts, port_labels, port_text, state_labels, state_texts, texts,
};
use crate::linearize::local::{param_derivative, LinearBlock};
use crate::linearize::solve::{column, fails_column, put_column, solve_columns, solves_columns};
use crate::matrix::{
    all_zero, lemma_earlier_place, lemma_place_bounds, lemma_place_unique, matmul, place, product,
    sum, sums, zero_vec,
};
use crate::model::ConnModel;
use crate::optim::linsolve::Backend;
use crate::scalar::{negs, ones, zeros, Scalar};
use crate::seqs::copied;

verus! {

/// A term that is added only where it is given.
pub open spec fn sums_given<F: Scalar>(a: Seq<F>, b: Seq<F>, out: Seq<F>) -> bool {
    if b.len() == 0 {
        out == a
    } else {
        sums(a, b, out)
    }
}

fn sum_given<F: Scalar>(a: Vec<F>, b: &Vec<F>) -> (out: Vec<F>)
    requires
        b@.len() == 0 || b@.len() == a@.len(),
    ensures
        sums_given(a@, b@, out@),
{
    if b.len() == 0 {
        a
    } else {
        sum(a.as_slice(), b.as_slice())
    }
}

/// What drives the block inputs: `L Ew + Ev`, where `le` is `L Ew`.
pub open spec fn injection_with<F: Scalar>(
    blocks: Seq<LinearBlock<F>>,
    assembled: Assembly<F>,
    ev: Seq<F>,
    ew: Seq<F>,
    n_q: int,
    le: Seq<F>,
    rhs: Seq<F>,
) -> bool {
    let (v, w) = (input_total(blocks), output_total(blocks));
    &&& if ew.len() == 0 {
        all_zero(v * n_q, le)
    } else {
        product(assembled.system.l@, ew, v, w, n_q, le)
    }
    &&& sums_given(le, ev, rhs)
}

/// `rhs` drives the block inputs.
pub open spec fn injection<F: Scalar>(
    blocks: Seq<LinearBlock<F>>,
    assembled: Assembly<F>,
    ev: Seq<F>,
    ew: Seq<F>,
    n_q: int,
    rhs: Seq<F>,
) -> bool {
    exists|le: Seq<F>| #[trigger] injection_with(blocks, assembled, ev, ew, n_q, le, rhs)
}

/// `b_q` and `d_q` are what the columns contribute once the internal signals are
/// eliminated, where `gq` solves for the driven inputs `rhs`, and `bg`, `dg` are
/// its products with `B` and `D`.
pub open spec fn driven_with<F: Scalar, B: Backend<F>>(
    blocks: Seq<LinearBlock<F>>,
    assembled: Assembly<F>,
    ev: Seq<F>,
    ex: Seq<F>,
    ew: Seq<F>,
    n_q: int,
    rhs: Seq<F>,
    gq: Seq<F>,
    bg: Seq<F>,
    dg: Seq<F>,
    b_q: Seq<F>,
    d_q: Seq<F>,
) -> bool {
    let (v, w, x) = (input_total(blocks), output_total(blocks), state_total(blocks));
    let s = assembled.system;
    &&& injection(blocks, assembled, ev, ew, n_q, rhs)
    &&& solves_columns::<F, B>(s.sys@, rhs, v as usize, n_q, gq)
    &&& product(s.b_b@, gq, x, v, n_q, bg)
    &&& sums_given(bg, ex, b_q)
    &&& product(s.d_b@, gq, w, v, n_q, dg)
    &&& sums_given(dg, ew, d_q)
}

/// `b_q` and `d_q` are what `n_q` exogenous columns contribute; no columns
/// contribute nothing.
pub open spec fn driven<F: Scalar, B: Backend<F>>(
    blocks: Seq<LinearBlock<F>>,
    assembled: Assembly<F>,
    ev: Seq<F>,
    ex: Seq<F>,
    ew: Seq<F>,
    n_q: int,
    b_q: Seq<F>,
    d_q: Seq<F>,
) -> bool {
    if n_q == 0 {
        b_q.len() == 0 && d_q.len() == 0
    } else {
        exists|rhs: Seq<F>, gq: Seq<F>, bg: Seq<F>, dg: Seq<F>| #[trigger]
            driven_with::<F, B>(
                blocks,
                assembled,
                ev,
                ex,
                ew,
                n_q,
                rhs,
                gq,
                bg,
                dg,
                b_q,
                d_q,
            )
    }
}

/// Some driven column does not solve the system.
pub open spec fn undriven<F: Scalar, B: Backend<F>>(
    blocks: Seq<LinearBlock<F>>,
    assembled: Assembly<F>,
    ev: Seq<F>,
    ew: Seq<F>,
    n_q: int,
) -> bool {
    n_q > 0 && exists|rhs: Seq<F>| #[trigger]
        injection(blocks, assembled, ev, ew, n_q, rhs) && fails_column::<F, B>(
            assembled.system.sys@,
            rhs,
            input_total(blocks) as usize,
            n_q,
        )
}

/// Matrices with `n` columns over inputs, outputs and states fit in memory.
pub open spec fn columns_fit<F>(blocks: Seq<LinearBlock<F>>, n: int) -> bool {
    &&& input_total(blocks) * n <= usize::MAX
    &&& output_total(blocks) * n <= usize::MAX
    &&& state_total(blocks) * n <= usize::MAX
}

/// Every tap is an output of a block.
pub open spec fn taps_exist<F>(
    blocks: Seq<LinearBlock<F>>,
    taps: Seq<Option<(usize, usize)>>,
) -> bool {
    forall|k: int|
        0 <= k < taps.len() ==> ((#[trigger] taps[k]) matches Some(t) ==> t.0 < blocks.len() && (
        offset(output_sizes(blocks), t.0 as int) + t.1 < output_total(blocks)))
}

/// Row `k` of `out` is the tapped row of `full`, or zero where nothing is tapped.
pub open spec fn tapped_row<F: Scalar>(
    blocks: Seq<LinearBlock<F>>,
    tap: Option<(usize, usize)>,
    full: Seq<F>,
    n: int,
    k: int,
    out: Seq<F>,
) -> bool {
    forall|j: int|
        #![trigger out[place(n, k, j)]]
        0 <= j < n ==> match tap {
            Some(t) => out[place(n, k, j)] == full[place(
                n,
                offset(output_sizes(blocks), t.0 as int) + t.1,
                j,
            )],
            None => zeros(out[place(n, k, j)]),
        }
}

/// `out` consists of the tapped rows of `full`, which has `n` columns.
pub open spec fn tapped<F: Scalar>(
    blocks: Seq<LinearBlock<F>>,
    taps: Seq<Option<(usize, usize)>>,
    full: Seq<F>,
    n: int,
    out: Seq<F>,
) -> bool {
    &&& out.len() == taps.len() * n
    &&& forall|k: int|
        0 <= k < taps.len() ==> #[trigger] tapped_row(blocks, taps[k], full, n, k, out)
}

impl<F: Scalar> Assembly<F> {
    /// Row of the block inputs that belongs to an input port.
    pub fn v_row(&self, block: usize, port: usize) -> (row: usize)
        requires
            block < self.system.layout.ports.v_off@.len(),
            self.system.layout.ports.v_off@[block as int] + port <= usize::MAX,
        ensures
            row == self.system.layout.ports.v_off@[block as int] + port,
    {
        self.system.layout.ports.v_off[block] + port
    }

    /// Drives `n_q` exogenous columns through the interconnection. `ev` acts at
    /// the block inputs, `ex` at the derivatives and `ew` at the block outputs;
    /// an empty one does not act.
    pub fn drive<B: Backend<F>>(
        &self,
        blocks: &Vec<LinearBlock<F>>,
        ev: &Vec<F>,
        ex: &Vec<F>,
        ew: &Vec<F>,
        n_q: usize,
    ) -> (r: Result<(Vec<F>, Vec<F>), SimError<F>>)
        requires
            assemblable(blocks@),
            self.sized(blocks@),
            columns_fit(blocks@, n_q as int),
            ev@.len() == 0 || ev@.len() == input_total(blocks@) * n_q,
            ex@.len() == 0 || ex@.len() == state_total(blocks@) * n_q,
            ew@.len() == 0 || ew@.len() == output_total(blocks@) * n_q,
        ensures
            r is Ok ==> driven::<F, B>(
                blocks@,
                *self,
                ev@,
                ex@,
                ew@,
                n_q as int,
                r->Ok_0.0@,
                r->Ok_0.1@,
            ),
            r is Err ==> r->Err_0 is LinearizationIllPosed && undriven::<F, B>(
                blocks@,
                *self,
                ev@,
                ew@,
                n_q as int,
            ),
    {
        if n_q == 0 {
            return Ok((Vec::new(), Vec::new()));
        }
        let s = &self.system;
        let n_v: usize = s.layout.ports.n_v;
        let n_w: usize = s.layout.ports.n_w;
        let n_x: usize = s.layout.n_x;
        let le: Vec<F> = if ew.len() == 0 {
            zero_vec(n_v * n_q)
        } else {
            matmul(s.l.as_slice(), ew.as_slice(), n_v, n_w, n_q)
        };
        let ghost le_seq = le@;
        let rhs: Vec<F> = sum_given(le, ev);
        assert(injection_with(blocks@, *self, ev@, ew@, n_q as int, le_seq, rhs@));
        assert(injection(blocks@, *self, ev@, ew@, n_q as int, rhs@));
        let gq: Vec<F> = match solve_columns::<F, B>(&s.sys, &rhs, n_v, n_q) {
            Ok(g) => g,
            Err(e) => {
                return Err(e);
            },
        };
        let bg: Vec<F> = matmul(s.b_b.as_slice(), gq.as_slice(), n_x, n_v, n_q);
        let ghost bg_seq = bg@;
        let b_q: Vec<F> = sum_given(bg, ex);
        let dg: Vec<F> = matmul(s.d_b.as_slice(), gq.as_slice(), n_w, n_v, n_q);
        let ghost dg_seq = dg@;
        let d_q: Vec<F> = sum_given(dg, ew);
        assert(driven_with::<F, B>(
            blocks@,
            *self,
            ev@,
            ex@,
            ew@,
            n_q as int,
            rhs@,
            gq@,
            bg_seq,
            dg_seq,
            b_q@,
            d_q@,
        ));
        Ok((b_q, d_q))
    }

    fn tap(
        &self,
        blocks: &Vec<LinearBlock<F>>,
        full: &Vec<F>,
        n: usize,
        taps: &Vec<Option<(usize, usize)>>,
    ) -> (out: Vec<F>)
        requires
            self.sized(blocks@),
            full@.len() == output_total(blocks@) * n,
            taps_exist(blocks@, taps@),
        ensures
            tapped(blocks@, taps@, full@, n as int, out@),
    {
        let n_w: usize = self.system.layout.ports.n_w;
        let size: usize = full.len();
        let mut out: Vec<F> = Vec::new();
        let mut k: usize = 0;
        assert(0 * n == 0) by (nonlinear_arith);
        while k < taps.len()
            invariant
                k <= taps.len(),
                self.sized(blocks@),
                n_w == output_total(blocks@),
                size == n_w * n,
                full@.len() == size,
                taps_exist(blocks@, taps@),
                out@.len() == k * n,
                forall|q: int|
                    0 <= q < k ==> #[trigger] tapped_row(
                        blocks@,
                        taps@[q],
                        full@,
                        n as int,
                        q,
                        out@,
                    ),
            decreases taps.len() - k,
        {
            let ghost before = out@;
            let mut j: usize = 0;
            while j < n
                invariant
                    j <= n,
                    k < taps.len(),
                    self.sized(blocks@),
                    n_w == output_total(blocks@),
                    size == n_w * n,
                    full@.len() == size,
                    taps_exist(blocks@, taps@),
                    out@.len() == k * n + j,
                    before.len() == k * n,
                    forall|q: int| 0 <= q < k * n ==> #[trigger] out@[q] == before[q],
                    forall|q: int|
                        #![trigger out@[place(n as int, k as int, q)]]
                        0 <= q < j ==> match taps@[k as int] {
                            Some(t) => out@[place(n as int, k as int, q)] == full@[place(
                                n as int,
                                offset(output_sizes(blocks@), t.0 as int) + t.1,
                                q,
                            )],
                            None => zeros(out@[place(n as int, k as int, q)]),
                        },
                decreases n - j,
            {
                let v: F = match taps[k] {
                    Some(t) => {
                        let w: usize = self.system.layout.ports.w_off[t.0] + t.1;
                        proof {
                            lemma_place_bounds(n_w as int, n as int, w as int, j as int);
                        }
                        full[w * n + j]
                    },
                    None => F::zero(),
                };
                out.push(v);
                j += 1;
            }
            proof {
                assert((k + 1) * n == k * n + n) by (nonlinear_arith);
                assert forall|q: int| 0 <= q < k + 1 implies #[trigger] tapped_row(
                    blocks@,
                    taps@[q],
                    full@,
                    n as int,
                    q,
                    out@,
                ) by {
                    if q < k {
                        assert(tapped_row(blocks@, taps@[q], full@, n as int, q, before));
                        assert forall|c: int| 0 <= c < n implies out@[#[trigger] place(
                            n as int,
                            q,
                            c,
                        )] == before[place(n as int, q, c)] by {
                            lemma_earlier_place(n as int, q, c, k as int, 0);
                        }
                    }
                }
            }
            k += 1;
        }
        out
    }

    /// The tapped rows of `C` and of `d_full`, which has `n_q` columns.
    pub fn select(
        &self,
        blocks: &Vec<LinearBlock<F>>,
        d_full: &Vec<F>,
        n_q: usize,
        out_rows: &Vec<Option<(usize, usize)>>,
    ) -> (r: (Vec<F>, Vec<F>))
        requires
            self.sized(blocks@),
            d_full@.len() == output_total(blocks@) * n_q,
            taps_exist(blocks@, out_rows@),
        ensures
            tapped(blocks@, out_rows@, self.c_full@, state_total(blocks@), r.0@),
            tapped(blocks@, out_rows@, d_full@, n_q as int, r.1@),
    {
        let c: Vec<F> = self.tap(blocks, &self.c_full, self.system.layout.n_x, out_rows);
        let d: Vec<F> = self.tap(blocks, d_full, n_q, out_rows);
        (c, d)
    }
}

/// All pairs of all columns.
pub open spec fn all_pairs(cols: Seq<Vec<(usize, usize)>>) -> Seq<(usize, usize)>
    decreases cols.len(),
{
    if cols.len() == 0 {
        Seq::empty()
    } else {
        all_pairs(cols.drop_last()) + cols.last()@
    }
}

fn flatten(cols: &Vec<Vec<(usize, usize)>>) -> (out: Vec<(usize, usize)>)
    ensures
        out@ == all_pairs(cols@),
{
    let mut out: Vec<(usize, usize)> = Vec::new();
    let mut c: usize = 0;
    assert(all_pairs(cols@.take(0)) =~= Seq::empty());
    while c < cols.len()
        invariant
            c <= cols.len(),
            out@ == all_pairs(cols@.take(c as int)),
        decreases cols.len() - c,
    {
        let ghost before = out@;
        let mut k: usize = 0;
        while k < cols[c].len()
            invariant
                c < cols.len(),
                k <= cols@[c as int]@.len(),
                out@ == before + cols@[c as int]@.take(k as int),
            decreases cols@[c as int]@.len() - k,
        {
            out.push(cols[c][k]);
            assert(cols@[c as int]@.take(k + 1) =~= cols@[c as int]@.take(k as int).push(
                cols@[c as int]@[k as int],
            ));
            k += 1;
        }
        assert(cols@[c as int]@.take(k as int) =~= cols@[c as int]@);
        assert(cols@.take(c + 1).drop_last() =~= cols@.take(c as int));
        c += 1;
    }
    assert(cols@.take(c as int) =~= cols@);
    out
}

/// One of the first `k` ports of a column is row `v` of the block inputs.
pub open spec fn enters<F>(
    blocks: Seq<LinearBlock<F>>,
    ports: Seq<(usize, usize)>,
    k: int,
    v: int,
) -> bool {
    exists|m: int|
        0 <= m < k && #[trigger] offset(input_sizes(blocks), ports[m].0 as int) + ports[m].1 == v
}

/// `r` is one where the column enters, else zero.
pub open spec fn entry_bit<F: Scalar>(enters: bool, r: F) -> bool {
    if enters {
        ones(r)
    } else {
        zeros(r)
    }
}

/// `ev` has a one where a column enters the block inputs, and zeros elsewhere.
pub open spec fn input_matrix<F: Scalar>(
    blocks: Seq<LinearBlock<F>>,
    cols: Seq<Vec<(usize, usize)>>,
    ev: Seq<F>,
) -> bool {
    let n = cols.len() as int;
    &&& ev.len() == input_total(blocks) * n
    &&& forall|v: int, c: int|
        #![trigger ev[place(n, v, c)]]
        0 <= v < input_total(blocks) && 0 <= c < n ==> entry_bit(
            enters(blocks, cols[c]@, cols[c]@.len() as int, v),
            ev[place(n, v, c)],
        )
}

/// Every port of every column belongs to a block, and its row has a number.
pub open spec fn ports_exist<F>(
    blocks: Seq<LinearBlock<F>>,
    cols: Seq<Vec<(usize, usize)>>,
) -> bool {
    forall|c: int, k: int|
        #![trigger cols[c]@[k]]
        0 <= c < cols.len() && 0 <= k < cols[c]@.len() ==> cols[c]@[k].0 < blocks.len() && offset(
            input_sizes(blocks),
            cols[c]@[k].0 as int,
        ) + cols[c]@[k].1 <= usize::MAX
}

impl<F: Scalar> Assembly<F> {
    fn inputs(&self, blocks: &Vec<LinearBlock<F>>, cols: &Vec<Vec<(usize, usize)>>) -> (ev: Vec<F>)
        requires
            self.sized(blocks@),
            columns_fit(blocks@, cols@.len() as int),
            ports_exist(blocks@, cols@),
        ensures
            input_matrix(blocks@, cols@, ev@),
    {
        let n: usize = cols.len();
        let n_v: usize = self.system.layout.ports.n_v;
        let size: usize = n_v * n;
        let mut ev: Vec<F> = zero_vec(size);
        let mut c: usize = 0;
        proof {
            assert forall|v: int, q: int| 0 <= v < n_v && 0 <= q < n implies entry_bit(
                false,
                #[trigger] ev@[place(n as int, v, q)],
            ) by {
                lemma_place_bounds(n_v as int, n as int, v, q);
            }
        }
        while c < n
            invariant
                c <= n,
                n == cols@.len(),
                n_v == input_total(blocks@),
                size == n_v * n,
                self.sized(blocks@),
                ports_exist(blocks@, cols@),
                ev@.len() == size,
                forall|v: int, q: int|
                    #![trigger ev@[place(n as int, v, q)]]
                    0 <= v < n_v && 0 <= q < n ==> entry_bit(
                        q < c && enters(blocks@, cols@[q]@, cols@[q]@.len() as int, v),
                        ev@[place(n as int, v, q)],
                    ),
            decreases n - c,
        {
            let mut k: usize = 0;
            while k < cols[c].len()
                invariant
                    c < n,
                    n == cols@.len(),
                    k <= cols@[c as int]@.len(),
                    n_v == input_total(blocks@),
                    size == n_v * n,
                    self.sized(blocks@),
                    ports_exist(blocks@, cols@),
                    ev@.len() == size,
                    forall|v: int, q: int|
                        #![trigger ev@[place(n as int, v, q)]]
                        0 <= v < n_v && 0 <= q < n ==> entry_bit(
                            q < c && enters(blocks@, cols@[q]@, cols@[q]@.len() as int, v) || q == c
                                && enters(blocks@, cols@[c as int]@, k as int, v),
                            ev@[place(n as int, v, q)],
                        ),
                decreases cols@[c as int]@.len() - k,
            {
                let (block, port): (usize, usize) = cols[c][k];
                assert(cols@[c as int]@[k as int] == (block, port));
                let row: usize = self.v_row(block, port);
                let ghost before = ev@;
                if row < n_v {
                    proof {
                        lemma_place_bounds(n_v as int, n as int, row as int, c as int);
                    }
                    ev.set(row * n + c, F::one());
                }
                proof {
                    let ports = cols@[c as int]@;
                    assert forall|v: int| enters(blocks@, ports, k + 1, v) <==> enters(
                        blocks@,
                        ports,
                        k as int,
                        v,
                    ) || v == row by {
                        if v == row {
                            assert(offset(input_sizes(blocks@), ports[k as int].0 as int)
                                + ports[k as int].1 == v);
                        }
                    }
                    assert forall|v: int, q: int| 0 <= v < n_v && 0 <= q < n implies entry_bit(
                        q < c && enters(blocks@, cols@[q]@, cols@[q]@.len() as int, v) || q == c
                            && enters(blocks@, ports, k + 1, v),
                        #[trigger] ev@[place(n as int, v, q)],
                    ) by {
                        lemma_place_bounds(n_v as int, n as int, v, q);
                        if place(n as int, v, q) == place(n as int, row as int, c as int) {
                            lemma_place_unique(n as int, v, q, row as int, c as int);
                        } else {
                            assert(ev@[place(n as int, v, q)] == before[place(n as int, v, q)]);
                        }
                        assert(enters(blocks@, ports, k + 1, v) <==> enters(
                            blocks@,
                            ports,
                            k as int,
                            v,
                        ) || v == row);
                    }
                }
                k += 1;
            }
            c += 1;
        }
        ev
    }
}

/// Linear model of a diagram: `dx/dt = A x + B u`, `y = C x + D u`.
#[derive(Debug)]
pub struct GlobalModel<F> {
    pub a: Vec<F>,
    pub b: Vec<F>,
    pub c: Vec<F>,
    pub d: Vec<F>,
    pub nx: usize,
    pub nu: usize,
    pub ny: usize,
    pub state_labels: Vec<String>,
    pub input_labels: Vec<String>,
    pub output_labels: Vec<String>,
}

/// Names of the kinds of the blocks.
pub open spec fn block_kinds<F>(blocks: Seq<LinearBlock<F>>) -> Seq<Seq<char>> {
    blocks.map_values(|b: LinearBlock<F>| b.kind_name@)
}

/// Block that an input column is named after: that of its first port.
pub open spec fn input_owner(ports: Seq<(usize, usize)>) -> Option<usize> {
    if ports.len() == 0 {
        None
    } else {
        Some(ports[0].0)
    }
}

/// Block that an output row is named after.
pub open spec fn output_owner(tap: Option<(usize, usize)>) -> Option<usize> {
    match tap {
        Some(t) => Some(t.0),
        None => None,
    }
}

/// The labels of `g` name the blocks that its states, inputs and outputs belong
/// to.
pub open spec fn labelled<F>(
    blocks: Seq<LinearBlock<F>>,
    in_cols: Seq<Vec<(usize, usize)>>,
    out_rows: Seq<Option<(usize, usize)>>,
    g: GlobalModel<F>,
) -> bool {
    let keys = key_texts(block_kinds(blocks));
    &&& texts(g.state_labels@) == state_texts(state_layout(blocks, blocks.len() as int), keys)
    &&& g.input_labels@.len() == in_cols.len()
    &&& forall|c: int|
        0 <= c < in_cols.len() ==> (#[trigger] g.input_labels@[c])@ == port_text(
            input_owner(in_cols[c]@),
            keys,
        )
    &&& g.output_labels@.len() == out_rows.len()
    &&& forall|r: int|
        0 <= r < out_rows.len() ==> (#[trigger] g.output_labels@[r])@ == port_text(
            output_owner(out_rows[r]),
            keys,
        )
}

/// `g` is the model of a diagram, by way of its assembly and of the columns of
/// its inputs.
pub open spec fn global_with<F: Scalar, B: Backend<F>>(
    blocks: Seq<LinearBlock<F>>,
    conns: Seq<ConnModel>,
    in_cols: Seq<Vec<(usize, usize)>>,
    out_rows: Seq<Option<(usize, usize)>>,
    assembled: Assembly<F>,
    ev: Seq<F>,
    d_full: Seq<F>,
    g: GlobalModel<F>,
) -> bool {
    let n = in_cols.len() as int;
    &&& assembly_of::<F, B>(blocks, conns, all_pairs(in_cols), assembled)
    &&& input_matrix(blocks, in_cols, ev)
    &&& driven::<F, B>(
        blocks,
        assembled,
        ev,
        Seq::empty(),
        Seq::empty(),
        n,
        g.b@,
        d_full,
    )
    &&& g.a@ == assembled.a@
    &&& tapped(blocks, out_rows, assembled.c_full@, state_total(blocks), g.c@)
    &&& tapped(blocks, out_rows, d_full, n, g.d@)
}

/// `g` is the linear model of a diagram with the given inputs and outputs.
pub open spec fn global_of<F: Scalar, B: Backend<F>>(
    blocks: Seq<LinearBlock<F>>,
    conns: Seq<ConnModel>,
    in_cols: Seq<Vec<(usize, usize)>>,
    out_rows: Seq<Option<(usize, usize)>>,
    g: GlobalModel<F>,
) -> bool {
    &&& exists|assembled: Assembly<F>, ev: Seq<F>, d_full: Seq<F>| #[trigger]
        global_with::<F, B>(blocks, conns, in_cols, out_rows, assembled, ev, d_full, g)
    &&& g.nx == state_total(blocks)
    &&& g.nu == in_cols.len()
    &&& g.ny == out_rows.len()
    &&& labelled(blocks, in_cols, out_rows, g)
}

/// The diagram is assembled, but a column of its inputs does not solve it.
pub open spec fn inputs_unsolved<F: Scalar, B: Backend<F>>(
    blocks: Seq<LinearBlock<F>>,
    conns: Seq<ConnModel>,
    in_cols: Seq<Vec<(usize, usize)>>,
) -> bool {
    exists|assembled: Assembly<F>, ev: Seq<F>| #[trigger]
        assembly_of::<F, B>(blocks, conns, all_pairs(in_cols), assembled) && #[trigger] input_matrix(
            blocks,
            in_cols,
            ev,
        ) && undriven::<F, B>(blocks, assembled, ev, Seq::empty(), in_cols.len() as int)
}

fn kinds_of<F>(blocks: &Vec<LinearBlock<F>>) -> (kinds: Vec<String>)
    ensures
        texts(kinds@) == block_kinds(blocks@),
{
    let mut kinds: Vec<String> = Vec::with_capacity(blocks.len());
    let mut i: usize = 0;
    while i < blocks.len()
        invariant
            i <= blocks.len(),
            kinds@.len() == i,
            forall|k: int| 0 <= k < i ==> (#[trigger] kinds@[k])@ == blocks@[k].kind_name@,
        decreases blocks.len() - i,
    {
        kinds.push(blocks[i].kind_name.clone());
        i += 1;
    }
    assert(texts(kinds@) =~= block_kinds(blocks@));
    kinds
}

fn input_owners(cols: &Vec<Vec<(usize, usize)>>) -> (owners: Vec<Option<usize>>)
    ensures
        owners@.len() == cols@.len(),
        forall|c: int| 0 <= c < cols@.len() ==> #[trigger] owners@[c] == input_owner(cols@[c]@),
{
    let mut owners: Vec<Option<usize>> = Vec::with_capacity(cols.len());
    let mut c: usize = 0;
    while c < cols.len()
        invariant
            c <= cols.len(),
            owners@.len() == c,
            forall|q: int| 0 <= q < c ==> #[trigger] owners@[q] == input_owner(cols@[q]@),
        decreases cols.len() - c,
    {
        if cols[c].len() == 0 {
            owners.push(None);
        } else {
            owners.push(Some(cols[c][0].0));
        }
        c += 1;
    }
    owners
}

fn output_owners(taps: &Vec<Option<(usize, usize)>>) -> (owners: Vec<Option<usize>>)
    ensures
        owners@.len() == taps@.len(),
        forall|r: int| 0 <= r < taps@.len() ==> #[trigger] owners@[r] == output_owner(taps@[r]),
{
    let mut owners: Vec<Option<usize>> = Vec::with_capacity(taps.len());
    let mut r: usize = 0;
    while r < taps.len()
        invariant
            r <= taps.len(),
            owners@.len() == r,
            forall|q: int| 0 <= q < r ==> #[trigger] owners@[q] == output_owner(taps@[q]),
        decreases taps.len() - r,
    {
        match taps[r] {
            Some(t) => owners.push(Some(t.0)),
            None => owners.push(None),
        }
        r += 1;
    }
    owners
}

proof fn lemma_state_layout_blocks<F>(blocks: Seq<LinearBlock<F>>, n: int)
    requires
        0 <= n <= blocks.len(),
        blocks.len() <= usize::MAX,
    ensures
        forall|k: int|
            0 <= k < state_layout(blocks, n).len() ==> (#[trigger] state_layout(blocks, n)[k]).0 < n,
    decreases n,
{
    if n > 0 {
        lemma_state_layout_blocks(blocks, n - 1);
        let shorter = state_layout(blocks, n - 1);
        let longer = state_layout(blocks, n);
        assert forall|k: int| 0 <= k < longer.len() implies (#[trigger] longer[k]).0 < n by {
            if k < shorter.len() {
                assert(longer[k] == shorter[k]);
            }
        }
    }
}

fn label<F: Scalar>(
    blocks: &Vec<LinearBlock<F>>,
    x_layout: &Vec<(usize, usize)>,
    in_cols: &Vec<Vec<(usize, usize)>>,
    out_rows: &Vec<Option<(usize, usize)>>,
) -> (r: (Vec<String>, Vec<String>, Vec<String>))
    requires
        x_layout@ == state_layout(blocks@, blocks@.len() as int),
        ports_exist(blocks@, in_cols@),
        taps_exist(blocks@, out_rows@),
    ensures
        forall|g: GlobalModel<F>|
            g.state_labels == r.0 && g.input_labels == r.1 && g.output_labels == r.2
                ==> #[trigger] labelled(blocks@, in_cols@, out_rows@, g),
{
    let count: usize = blocks.len();
    let kinds: Vec<String> = kinds_of(blocks);
    let keys: Vec<String> = block_keys(&kinds);
    let inputs: Vec<Option<usize>> = input_owners(in_cols);
    let outputs: Vec<Option<usize>> = output_owners(out_rows);
    proof {
        lemma_state_layout_blocks(blocks@, count as int);
        assert(texts(keys@).len() == blocks@.len());
        assert forall|c: int| 0 <= c < inputs@.len() implies ((#[trigger] inputs@[c]) matches Some(
            b,
        ) ==> b < keys@.len()) by {
            if in_cols@[c]@.len() > 0 {
                assert(in_cols@[c]@[0].0 < blocks@.len());
            }
        }
        assert forall|k: int| 0 <= k < outputs@.len() implies ((#[trigger] outputs@[k]) matches Some(
            b,
        ) ==> b < keys@.len()) by {
            assert(out_rows@[k] matches Some(t) ==> t.0 < blocks@.len());
        }
    }
    let states: Vec<String> = state_labels(x_layout, &keys);
    let ins: Vec<String> = port_labels(&inputs, &keys);
    let outs: Vec<String> = port_labels(&outputs, &keys);
    (states, ins, outs)
}

/// The linear model of a diagram. Each input column drives the listed block
/// inputs in place of their connections; each output row taps a block output, or
/// nothing.
pub fn assemble_from_ports<F: Scalar, B: Backend<F>>(
    blocks: &Vec<LinearBlock<F>>,
    conns: &Vec<ConnModel>,
    in_cols: &Vec<Vec<(usize, usize)>>,
    out_rows: &Vec<Option<(usize, usize)>>,
) -> (r: Result<GlobalModel<F>, SimError<F>>)
    requires
        assemblable(blocks@),
        columns_fit(blocks@, in_cols@.len() as int),
        ports_exist(blocks@, in_cols@),
        taps_exist(blocks@, out_rows@),
    ensures
        r is Ok ==> all_linearizable(blocks@) && global_of::<F, B>(
            blocks@,
            conns@,
            in_cols@,
            out_rows@,
            r->Ok_0,
        ),
        r is Err ==> refusal::<F, B>(blocks@, conns@, all_pairs(in_cols@), r->Err_0) || (
        all_linearizable(blocks@) && r->Err_0 is LinearizationIllPosed && inputs_unsolved::<F, B>(
            blocks@,
            conns@,
            in_cols@,
        )),
{
    let broken: Vec<(usize, usize)> = flatten(in_cols);
    let assembled: Assembly<F> = match Assembly::build::<B>(blocks, conns, &broken) {
        Ok(a) => a,
        Err(e) => {
            return Err(e);
        },
    };
    let n_u: usize = in_cols.len();
    let ev: Vec<F> = assembled.inputs(blocks, in_cols);
    let none: Vec<F> = Vec::new();
    assert(none@ =~= Seq::empty());
    let (b, d_full): (Vec<F>, Vec<F>) = match assembled.drive::<B>(blocks, &ev, &none, &none, n_u) {
        Ok(r) => r,
        Err(e) => {
            return Err(e);
        },
    };
    assert(n_u == 0 ==> output_total(blocks@) * n_u == 0) by (nonlinear_arith);
    let (c, d): (Vec<F>, Vec<F>) = assembled.select(blocks, &d_full, n_u, out_rows);
    let (state_names, input_names, output_names): (Vec<String>, Vec<String>, Vec<String>) = label(
        blocks,
        &assembled.system.layout.x_layout,
        in_cols,
        out_rows,
    );
    let a: Vec<F> = copied(assembled.a.as_slice());
    let g: GlobalModel<F> = GlobalModel {
        a,
        b,
        c,
        d,
        nx: assembled.system.layout.n_x,
        nu: n_u,
        ny: out_rows.len(),
        state_labels: state_names,
        input_labels: input_names,
        output_labels: output_names,
    };
    assert(global_with::<F, B>(
        blocks@,
        conns@,
        in_cols@,
        out_rows@,
        assembled,
        ev@,
        d_full@,
        g,
    ));
    assert(labelled(blocks@, in_cols@, out_rows@, g));
    Ok(g)
}

/// `out` has `n` rows: zeros, but for `values` from row `start` on.
pub open spec fn padded<F: Scalar>(n: int, start: int, values: Seq<F>, out: Seq<F>) -> bool {
    &&& out.len() == n
    &&& forall|i: int|
        #![trigger out[i]]
        0 <= i < n ==> if start <= i < start + values.len() {
            out[i] == values[i - start]
        } else {
            zeros(out[i])
        }
}

fn pad<F: Scalar>(n: usize, start: usize, values: &Vec<F>) -> (out: Vec<F>)
    ensures
        padded(n as int, start as int, values@, out@),
{
    let mut out: Vec<F> = Vec::with_capacity(n);
    let mut i: usize = 0;
    while i < n
        invariant
            i <= n,
            padded(i as int, start as int, values@, out@),
        decreases n - i,
    {
        let ghost before = out@;
        if start <= i && i - start < values.len() {
            out.push(values[i - start]);
        } else {
            out.push(F::zero());
        }
        assert forall|k: int| 0 <= k < i implies #[trigger] out@[k] == before[k] by {}
        i += 1;
    }
    out
}

/// A parameter acts on the derivatives of its own block.
pub open spec fn derivative_column<F: Scalar>(
    blocks: Seq<LinearBlock<F>>,
    param: (usize, String),
    col: Seq<F>,
) -> bool {
    let b = blocks[param.0 as int];
    exists|values: Seq<F>| #[trigger]
        param_derivative(b.f_params@, param.1@, b.nx as int, values) && padded(
            state_total(blocks),
            offset(state_sizes(blocks), param.0 as int),
            values,
            col,
        )
}

/// A parameter acts on the outputs of its own block.
pub open spec fn output_column<F: Scalar>(
    blocks: Seq<LinearBlock<F>>,
    param: (usize, String),
    col: Seq<F>,
) -> bool {
    let b = blocks[param.0 as int];
    exists|values: Seq<F>| #[trigger]
        param_derivative(b.g_params@, param.1@, b.ny as int, values) && padded(
            output_total(blocks),
            offset(output_sizes(blocks), param.0 as int),
            values,
            col,
        )
}

/// `ex` and `ew` are how the parameters act on derivatives and outputs.
pub open spec fn param_matrices<F: Scalar>(
    blocks: Seq<LinearBlock<F>>,
    params: Seq<(usize, String)>,
    ex: Seq<F>,
    ew: Seq<F>,
) -> bool {
    let n = params.len() as int;
    &&& ex.len() == state_total(blocks) * n
    &&& ew.len() == output_total(blocks) * n
    &&& forall|c: int|
        #![trigger column(ex, state_total(blocks), n, c)]
        0 <= c < n ==> derivative_column(blocks, params[c], column(ex, state_total(blocks), n, c))
    &&& forall|c: int|
        #![trigger column(ew, output_total(blocks), n, c)]
        0 <= c < n ==> output_column(blocks, params[c], column(ew, output_total(blocks), n, c))
}

/// Every parameter belongs to a block.
pub open spec fn params_exist<F>(
    blocks: Seq<LinearBlock<F>>,
    params: Seq<(usize, String)>,
) -> bool {
    forall|c: int| 0 <= c < params.len() ==> (#[trigger] params[c]).0 < blocks.len()
}

impl<F: Scalar> Assembly<F> {
    fn parameters(&self, blocks: &Vec<LinearBlock<F>>, params: &Vec<(usize, String)>) -> (r: (
        Vec<F>,
        Vec<F>,
    ))
        requires
            self.sized(blocks@),
            columns_fit(blocks@, params@.len() as int),
            params_exist(blocks@, params@),
        ensures
            param_matrices(blocks@, params@, r.0@, r.1@),
    {
        let n: usize = params.len();
        let n_x: usize = self.system.layout.n_x;
        let n_w: usize = self.system.layout.ports.n_w;
        let mut ex: Vec<F> = zero_vec(n_x * n);
        let mut ew: Vec<F> = zero_vec(n_w * n);
        let mut c: usize = 0;
        while c < n
            invariant
                c <= n,
                n == params@.len(),
                n_x == state_total(blocks@),
                n_w == output_total(blocks@),
                self.sized(blocks@),
                params_exist(blocks@, params@),
                ex@.len() == n_x * n,
                ew@.len() == n_w * n,
                forall|q: int|
                    #![trigger column(ex@, n_x as int, n as int, q)]
                    0 <= q < c ==> derivative_column(
                        blocks@,
                        params@[q],
                        column(ex@, n_x as int, n as int, q),
                    ),
                forall|q: int|
                    #![trigger column(ew@, n_w as int, n as int, q)]
                    0 <= q < c ==> output_column(
                        blocks@,
                        params@[q],
                        column(ew@, n_w as int, n as int, q),
                    ),
            decreases n - c,
        {
            let block: usize = params[c].0;
            assert(params@[c as int].0 < blocks@.len());
            let (dfdp, dgdp): (Vec<F>, Vec<F>) = blocks[block].param_sensitivity(&params[c].1);
            let fx: Vec<F> = pad(n_x, self.system.layout.x_off[block], &dfdp);
            let gw: Vec<F> = pad(n_w, self.system.layout.ports.w_off[block], &dgdp);
            assert(derivative_column(blocks@, params@[c as int], fx@));
            assert(output_column(blocks@, params@[c as int], gw@));
            put_column(&mut ex, n_x, n, c, &fx);
            put_column(&mut ew, n_w, n, c, &gw);
            c += 1;
        }
        (ex, ew)
    }
}

/// `out` is the elementwise negation of `a`.
pub open spec fn negations<F: Scalar>(a: Seq<F>, out: Seq<F>) -> bool {
    &&& out.len() == a.len()
    &&& forall|i: int| 0 <= i < a.len() ==> negs(a[i], #[trigger] out[i])
}

fn negate<F: Scalar>(a: &Vec<F>) -> (out: Vec<F>)
    ensures
        negations(a@, out@),
{
    let mut out: Vec<F> = Vec::with_capacity(a.len());
    let mut i: usize = 0;
    while i < a.len()
        invariant
            i <= a.len(),
            out@.len() == i,
            forall|k: int| 0 <= k < i ==> negs(a@[k], #[trigger] out@[k]),
        decreases a.len() - i,
    {
        out.push(a[i].negated());
        i += 1;
    }
    out
}

/// The parameters' columns at the operating point: how they act, and what they
/// contribute once the internal signals are eliminated.
pub open spec fn param_system<F: Scalar, B: Backend<F>>(
    blocks: Seq<LinearBlock<F>>,
    conns: Seq<ConnModel>,
    params: Seq<(usize, String)>,
    assembled: Assembly<F>,
    ex: Seq<F>,
    ew: Seq<F>,
    b_p: Seq<F>,
    d_full: Seq<F>,
) -> bool {
    &&& assembly_of::<F, B>(blocks, conns, Seq::empty(), assembled)
    &&& param_matrices(blocks, params, ex, ew)
    &&& driven::<F, B>(
        blocks,
        assembled,
        Seq::empty(),
        ex,
        ew,
        params.len() as int,
        b_p,
        d_full,
    )
}

/// `dxdp` is how the state follows the parameters: it solves `A dx/dp = -Bp`.
pub open spec fn state_response<F: Scalar, B: Backend<F>>(
    blocks: Seq<LinearBlock<F>>,
    assembled: Assembly<F>,
    b_p: Seq<F>,
    n_p: int,
    dxdp: Seq<F>,
) -> bool {
    let x = state_total(blocks);
    if x == 0 || n_p == 0 {
        all_zero(x * n_p, dxdp)
    } else {
        exists|rhs: Seq<F>| #[trigger]
            negations(b_p, rhs) && solves_columns::<F, B>(
                assembled.a@,
                rhs,
                x as usize,
                n_p,
                dxdp,
            )
    }
}

/// `out` is `C dx/dp + Dp`, over the tapped rows `c` and `d`, where `cx` is
/// `C dx/dp`.
pub open spec fn response_with<F: Scalar, B: Backend<F>>(
    blocks: Seq<LinearBlock<F>>,
    out_rows: Seq<Option<(usize, usize)>>,
    assembled: Assembly<F>,
    b_p: Seq<F>,
    d_full: Seq<F>,
    n_p: int,
    c: Seq<F>,
    d: Seq<F>,
    dxdp: Seq<F>,
    cx: Seq<F>,
    out: Seq<F>,
) -> bool {
    &&& tapped(blocks, out_rows, assembled.c_full@, state_total(blocks), c)
    &&& tapped(blocks, out_rows, d_full, n_p, d)
    &&& state_response::<F, B>(blocks, assembled, b_p, n_p, dxdp)
    &&& product(c, dxdp, out_rows.len() as int, state_total(blocks), n_p, cx)
    &&& sums(cx, d, out)
}

/// `out` is how the tapped outputs follow the parameters.
pub open spec fn response<F: Scalar, B: Backend<F>>(
    blocks: Seq<LinearBlock<F>>,
    out_rows: Seq<Option<(usize, usize)>>,
    assembled: Assembly<F>,
    b_p: Seq<F>,
    d_full: Seq<F>,
    n_p: int,
    out: Seq<F>,
) -> bool {
    exists|c: Seq<F>, d: Seq<F>, dxdp: Seq<F>, cx: Seq<F>| #[trigger]
        response_with::<F, B>(
            blocks,
            out_rows,
            assembled,
            b_p,
            d_full,
            n_p,
            c,
            d,
            dxdp,
            cx,
            out,
        )
}

/// `out` is the steady-state sensitivity of the tapped outputs to the parameters.
pub open spec fn sensitivity_of<F: Scalar, B: Backend<F>>(
    blocks: Seq<LinearBlock<F>>,
    conns: Seq<ConnModel>,
    params: Seq<(usize, String)>,
    out_rows: Seq<Option<(usize, usize)>>,
    out: Seq<F>,
) -> bool {
    exists|assembled: Assembly<F>, ex: Seq<F>, ew: Seq<F>, b_p: Seq<F>, d_full: Seq<F>| #[trigger]
        param_system::<F, B>(blocks, conns, params, assembled, ex, ew, b_p, d_full) && response::<
            F,
            B,
        >(blocks, out_rows, assembled, b_p, d_full, params.len() as int, out)
}

/// A column of the parameters does not solve the interconnection.
pub open spec fn params_unsolved<F: Scalar, B: Backend<F>>(
    blocks: Seq<LinearBlock<F>>,
    conns: Seq<ConnModel>,
    params: Seq<(usize, String)>,
) -> bool {
    exists|assembled: Assembly<F>, ex: Seq<F>, ew: Seq<F>| #[trigger]
        assembly_of::<F, B>(blocks, conns, Seq::empty(), assembled) && #[trigger] param_matrices(
            blocks,
            params,
            ex,
            ew,
        ) && undriven::<F, B>(blocks, assembled, Seq::empty(), ew, params.len() as int)
}

/// The state does not follow the parameters: a column of `A dx/dp = -Bp` has no
/// solution that passes the check.
pub open spec fn response_unsolved<F: Scalar, B: Backend<F>>(
    blocks: Seq<LinearBlock<F>>,
    conns: Seq<ConnModel>,
    params: Seq<(usize, String)>,
) -> bool {
    exists|
        assembled: Assembly<F>,
        ex: Seq<F>,
        ew: Seq<F>,
        b_p: Seq<F>,
        d_full: Seq<F>,
        rhs: Seq<F>,
    | #[trigger]
        param_system::<F, B>(blocks, conns, params, assembled, ex, ew, b_p, d_full)
            && #[trigger] negations(b_p, rhs) && fails_column::<F, B>(
            assembled.a@,
            rhs,
            state_total(blocks) as usize,
            params.len() as int,
        )
}

pub(crate) proof fn lemma_driven_sizes<F: Scalar, B: Backend<F>>(
    blocks: Seq<LinearBlock<F>>,
    assembled: Assembly<F>,
    ev: Seq<F>,
    ex: Seq<F>,
    ew: Seq<F>,
    n_q: int,
    b_q: Seq<F>,
    d_q: Seq<F>,
)
    requires
        driven::<F, B>(blocks, assembled, ev, ex, ew, n_q, b_q, d_q),
    ensures
        b_q.len() == state_total(blocks) * n_q,
        d_q.len() == output_total(blocks) * n_q,
{
    assert(n_q == 0 ==> output_total(blocks) * n_q == 0 && state_total(blocks) * n_q == 0)
        by (nonlinear_arith);
}

/// The steady-state sensitivity of the tapped outputs to named block parameters,
/// one column per parameter. A parameter that its block does not have gives a
/// zero column.
pub fn assemble_sensitivity<F: Scalar, B: Backend<F>>(
    blocks: &Vec<LinearBlock<F>>,
    conns: &Vec<ConnModel>,
    params: &Vec<(usize, String)>,
    out_rows: &Vec<Option<(usize, usize)>>,
    t: F,
) -> (r: Result<Vec<F>, SimError<F>>)
    requires
        assemblable(blocks@),
        columns_fit(blocks@, params@.len() as int),
        out_rows@.len() * params@.len() <= usize::MAX,
        params_exist(blocks@, params@),
        taps_exist(blocks@, out_rows@),
    ensures
        r is Ok ==> all_linearizable(blocks@) && sensitivity_of::<F, B>(
            blocks@,
            conns@,
            params@,
            out_rows@,
            r->Ok_0@,
        ),
        r is Err ==> {
            ||| refusal::<F, B>(blocks@, conns@, Seq::empty(), r->Err_0)
            ||| all_linearizable(blocks@) && r->Err_0 is LinearizationIllPosed && params_unsolved::<
                F,
                B,
            >(blocks@, conns@, params@)
            ||| all_linearizable(blocks@) && r->Err_0 == (SimError::SingularJacobian { time: t })
                && response_unsolved::<F, B>(blocks@, conns@, params@)
        },
{
    let broken: Vec<(usize, usize)> = Vec::new();
    assert(broken@ =~= Seq::empty());
    let assembled: Assembly<F> = match Assembly::build::<B>(blocks, conns, &broken) {
        Ok(a) => a,
        Err(e) => {
            return Err(e);
        },
    };
    let n_p: usize = params.len();
    let n_x: usize = assembled.system.layout.n_x;
    let n_y: usize = out_rows.len();
    let (ex, ew): (Vec<F>, Vec<F>) = assembled.parameters(blocks, params);
    let none: Vec<F> = Vec::new();
    assert(none@ =~= Seq::empty());
    let (b_p, d_full): (Vec<F>, Vec<F>) = match assembled.drive::<B>(blocks, &none, &ex, &ew, n_p) {
        Ok(r) => r,
        Err(e) => {
            return Err(e);
        },
    };
    proof {
        lemma_driven_sizes::<F, B>(
            blocks@,
            assembled,
            none@,
            ex@,
            ew@,
            n_p as int,
            b_p@,
            d_full@,
        );
    }
    assert(param_system::<F, B>(blocks@, conns@, params@, assembled, ex@, ew@, b_p@, d_full@));
    let (c, d): (Vec<F>, Vec<F>) = assembled.select(blocks, &d_full, n_p, out_rows);
    let dxdp: Vec<F> = if n_x == 0 || n_p == 0 {
        zero_vec(n_x * n_p)
    } else {
        let rhs: Vec<F> = negate(&b_p);
        match solve_columns::<F, B>(&assembled.a, &rhs, n_x, n_p) {
            Ok(m) => m,
            Err(_) => {
                return Err(SimError::SingularJacobian { time: t });
            },
        }
    };
    assert(state_response::<F, B>(blocks@, assembled, b_p@, n_p as int, dxdp@));
    let cx: Vec<F> = matmul(c.as_slice(), dxdp.as_slice(), n_y, n_x, n_p);
    let out: Vec<F> = sum(cx.as_slice(), d.as_slice());
    assert(response_with::<F, B>(
        blocks@,
        out_rows@,
        assembled,
        b_p@,
        d_full@,
        n_p as int,
        c@,
        d@,
        dxdp@,
        cx@,
        out@,
    ));
    Ok(out)
}

} // verus!
