//! Assembly of local models into one model of an interconnected diagram.
//!
//! The local models are stacked block diagonally, the connections become an
//! interconnection matrix `L`, and the internal signals are eliminated:
//! `dx/dt = A x + B v`, `w = C x + D v` and `v = L w + M u` give
//! `(I - L D) v = L C x + M u`. Algebraic loops are thereby resolved; a diagram
//! is well posed exactly if that system can be solved.

use vstd::prelude::*;

use crate::error::SimError;
use crate::linearize::local::{LinearBlock, LocalModel};
use crate::linearize::solve::{
    check_well_posed, checked_solution, failed_solution, fails_column, first_unit, solve_columns,
    solves_columns,
};
use crate::linearize::wiring::{block_ids, interconnect, interconnection, PortLayout};
use crate::matrix::{
    identity_less, lemma_earlier_place, lemma_place_bounds, less_from_identity, matmul, place,
    product, sum, sums,
};
use crate::model::ConnModel;
use crate::optim::linsolve::Backend;
use crate::scalar::{zeros, Scalar};

verus! {

/// Sum of the first `i` sizes.
pub open spec fn offset(sizes: Seq<usize>, i: int) -> int
    decreases i,
{
    if i <= 0 {
        0
    } else {
        offset(sizes, i - 1) + sizes[i - 1]
    }
}

pub proof fn lemma_offset_monotone(sizes: Seq<usize>, i: int, j: int)
    requires
        0 <= i <= j,
    ensures
        0 <= offset(sizes, i) <= offset(sizes, j),
    decreases j,
{
    if i < j {
        lemma_offset_monotone(sizes, i, j - 1);
    } else if i > 0 {
        lemma_offset_monotone(sizes, i - 1, i - 1);
    }
}

/// One of the four matrices of a model.
#[derive(Debug, Clone, Copy, PartialEq, Eq, Structural)]
pub enum Part {
    A,
    B,
    C,
    D,
}

pub open spec fn part_rows<F>(m: LocalModel<F>, part: Part) -> usize {
    match part {
        Part::A => m.nx,
        Part::B => m.nx,
        Part::C => m.ny,
        Part::D => m.ny,
    }
}

pub open spec fn part_cols<F>(m: LocalModel<F>, part: Part) -> usize {
    match part {
        Part::A => m.nx,
        Part::B => m.nu,
        Part::C => m.nx,
        Part::D => m.nu,
    }
}

pub open spec fn part_entries<F>(m: LocalModel<F>, part: Part) -> Seq<F> {
    match part {
        Part::A => m.a@,
        Part::B => m.b@,
        Part::C => m.c@,
        Part::D => m.d@,
    }
}

/// Row counts of one matrix of every model.
pub open spec fn row_sizes<F>(models: Seq<LocalModel<F>>, part: Part) -> Seq<usize> {
    models.map_values(|m: LocalModel<F>| part_rows(m, part))
}

/// Column counts of one matrix of every model.
pub open spec fn col_sizes<F>(models: Seq<LocalModel<F>>, part: Part) -> Seq<usize> {
    models.map_values(|m: LocalModel<F>| part_cols(m, part))
}

/// Place in the stacked matrix of row `r` of block `i` and column `c` of block
/// `j`.
pub open spec fn stack_place<F>(
    models: Seq<LocalModel<F>>,
    part: Part,
    i: int,
    r: int,
    j: int,
    c: int,
) -> int {
    place(
        offset(col_sizes(models, part), models.len() as int),
        offset(row_sizes(models, part), i) + r,
        offset(col_sizes(models, part), j) + c,
    )
}

/// `v` is what the stacked matrix holds at row `r` of block `i` and column `c` of
/// block `j`: the block's own entry on the diagonal, zero off it.
pub open spec fn stack_entry<F: Scalar>(
    models: Seq<LocalModel<F>>,
    part: Part,
    i: int,
    r: int,
    j: int,
    c: int,
    v: F,
) -> bool {
    if i == j {
        v == part_entries(models[i], part)[place(part_cols(models[i], part) as int, r, c)]
    } else {
        zeros(v)
    }
}

/// `out` stacks one matrix of every model block diagonally.
pub open spec fn stacked<F: Scalar>(models: Seq<LocalModel<F>>, part: Part, out: Seq<F>) -> bool {
    &&& out.len() == offset(row_sizes(models, part), models.len() as int) * offset(
        col_sizes(models, part),
        models.len() as int,
    )
    &&& forall|i: int, r: int, j: int, c: int|
        #![trigger out[stack_place(models, part, i, r, j, c)]]
        0 <= i < models.len() && 0 <= r < part_rows(models[i], part) && 0 <= j < models.len() && 0
            <= c < part_cols(models[j], part) ==> stack_entry(
            models,
            part,
            i,
            r,
            j,
            c,
            out[stack_place(models, part, i, r, j, c)],
        )
}

/// Every model is well shaped.
pub open spec fn all_well_shaped<F: Scalar>(models: Seq<LocalModel<F>>) -> bool {
    forall|i: int| 0 <= i < models.len() ==> (#[trigger] models[i]).well_shaped()
}

fn rows_in<F>(m: &LocalModel<F>, part: Part) -> (r: usize)
    ensures
        r == part_rows(*m, part),
{
    match part {
        Part::A => m.nx,
        Part::B => m.nx,
        Part::C => m.ny,
        Part::D => m.ny,
    }
}

fn cols_in<F>(m: &LocalModel<F>, part: Part) -> (r: usize)
    ensures
        r == part_cols(*m, part),
{
    match part {
        Part::A => m.nx,
        Part::B => m.nu,
        Part::C => m.nx,
        Part::D => m.nu,
    }
}

fn entries_in<F>(m: &LocalModel<F>, part: Part) -> (r: &Vec<F>)
    ensures
        r@ == part_entries(*m, part),
{
    match part {
        Part::A => &m.a,
        Part::B => &m.b,
        Part::C => &m.c,
        Part::D => &m.d,
    }
}

/// Appends row `r` of block `i` of the stacked matrix.
fn push_row<F: Scalar>(out: &mut Vec<F>, models: &Vec<LocalModel<F>>, part: Part, i: usize, r: usize)
    requires
        all_well_shaped(models@),
        i < models@.len(),
        r < part_rows(models@[i as int], part),
    ensures
        final(out)@.len() == old(out)@.len() + offset(
            col_sizes(models@, part),
            models@.len() as int,
        ),
        final(out)@.take(old(out)@.len() as int) == old(out)@,
        forall|j: int, c: int|
            #![trigger final(out)@[old(out)@.len() + offset(col_sizes(models@, part), j) + c]]
            0 <= j < models@.len() && 0 <= c < part_cols(models@[j], part) ==> stack_entry(
                models@,
                part,
                i as int,
                r as int,
                j,
                c,
                final(out)@[old(out)@.len() + offset(col_sizes(models@, part), j) + c],
            ),
{
    let ghost before = out@;
    let ghost sizes = col_sizes(models@, part);
    let m: &LocalModel<F> = &models[i];
    let width: usize = cols_in(m, part);
    let entries: &Vec<F> = entries_in(m, part);
    let size: usize = entries.len();
    assert(size == part_rows(*m, part) * width);
    let mut j: usize = 0;
    assert(out@.take(before.len() as int) =~= before);
    while j < models.len()
        invariant
            j <= models.len(),
            i < models@.len(),
            *m == models@[i as int],
            width == part_cols(*m, part),
            entries@ == part_entries(*m, part),
            size == entries@.len(),
            size == part_rows(*m, part) * width,
            r < part_rows(*m, part),
            sizes == col_sizes(models@, part),
            out@.len() == before.len() + offset(sizes, j as int),
            out@.len() >= before.len(),
            out@.take(before.len() as int) == before,
            forall|q: int, c: int|
                #![trigger out@[before.len() + offset(sizes, q) + c]]
                0 <= q < j && 0 <= c < part_cols(models@[q], part) ==> stack_entry(
                    models@,
                    part,
                    i as int,
                    r as int,
                    q,
                    c,
                    out@[before.len() + offset(sizes, q) + c],
                ),
        decreases models.len() - j,
    {
        let span: usize = cols_in(&models[j], part);
        let ghost prior = out@;
        assert(sizes[j as int] == span);
        assert(offset(sizes, j + 1) == offset(sizes, j as int) + span);
        let mut k: usize = 0;
        while k < span
            invariant
                k <= span,
                j < models@.len(),
                i < models@.len(),
                *m == models@[i as int],
                span == part_cols(models@[j as int], part),
                width == part_cols(*m, part),
                entries@ == part_entries(*m, part),
                size == entries@.len(),
                size == part_rows(*m, part) * width,
                r < part_rows(*m, part),
                out@.len() == prior.len() + k,
                out@.take(prior.len() as int) == prior,
                forall|c: int|
                    #![trigger out@[prior.len() + c]]
                    0 <= c < k ==> stack_entry(
                        models@,
                        part,
                        i as int,
                        r as int,
                        j as int,
                        c,
                        out@[prior.len() + c],
                    ),
            decreases span - k,
        {
            let ghost held = out@;
            if i == j {
                proof {
                    lemma_place_bounds(
                        part_rows(*m, part) as int,
                        width as int,
                        r as int,
                        k as int,
                    );
                }
                out.push(entries[r * width + k]);
            } else {
                out.push(F::zero());
            }
            proof {
                assert(out@.take(prior.len() as int) =~= held.take(prior.len() as int));
                assert forall|c: int| 0 <= c < k + 1 implies stack_entry(
                    models@,
                    part,
                    i as int,
                    r as int,
                    j as int,
                    c,
                    #[trigger] out@[prior.len() + c],
                ) by {
                    if c < k {
                        assert(out@[prior.len() + c] == held[prior.len() + c]);
                    }
                }
            }
            k += 1;
        }
        proof {
            assert(out@.take(before.len() as int) =~= prior.take(before.len() as int));
            assert forall|q: int, c: int|
                0 <= q < j + 1 && 0 <= c < part_cols(models@[q], part) implies stack_entry(
                models@,
                part,
                i as int,
                r as int,
                q,
                c,
                #[trigger] out@[before.len() + offset(sizes, q) + c],
            ) by {
                if q < j {
                    assert(sizes[q] == part_cols(models@[q], part));
                    assert(offset(sizes, q + 1) == offset(sizes, q) + sizes[q]);
                    lemma_offset_monotone(sizes, q + 1, j as int);
                    lemma_offset_monotone(sizes, 0, q);
                    let at = before.len() + offset(sizes, q) + c;
                    assert(at < prior.len());
                    assert(out@.take(prior.len() as int)[at] == out@[at]);
                } else {
                    assert(out@[prior.len() + c] == out@[before.len() + offset(sizes, q) + c]);
                }
            }
        }
        j += 1;
    }
}

/// Stacks one matrix of every model block diagonally.
pub fn stack<F: Scalar>(models: &Vec<LocalModel<F>>, part: Part) -> (out: Vec<F>)
    requires
        all_well_shaped(models@),
    ensures
        stacked(models@, part, out@),
{
    let ghost rows = row_sizes(models@, part);
    let ghost cols = col_sizes(models@, part);
    let ghost width = offset(cols, models@.len() as int);
    let mut out: Vec<F> = Vec::new();
    let mut i: usize = 0;
    assert(0 * width == 0) by (nonlinear_arith);
    while i < models.len()
        invariant
            i <= models.len(),
            all_well_shaped(models@),
            rows == row_sizes(models@, part),
            cols == col_sizes(models@, part),
            width == offset(cols, models@.len() as int),
            out@.len() == offset(rows, i as int) * width,
            forall|p: int, r: int, j: int, c: int|
                #![trigger out@[stack_place(models@, part, p, r, j, c)]]
                0 <= p < i && 0 <= r < part_rows(models@[p], part) && 0 <= j < models@.len() && 0
                    <= c < part_cols(models@[j], part) ==> stack_entry(
                    models@,
                    part,
                    p,
                    r,
                    j,
                    c,
                    out@[stack_place(models@, part, p, r, j, c)],
                ),
        decreases models.len() - i,
    {
        let height: usize = rows_in(&models[i], part);
        assert(rows[i as int] == height);
        assert(offset(rows, i + 1) == offset(rows, i as int) + height);
        let mut k: usize = 0;
        while k < height
            invariant
                k <= height,
                i < models@.len(),
                height == part_rows(models@[i as int], part),
                all_well_shaped(models@),
                rows == row_sizes(models@, part),
                cols == col_sizes(models@, part),
                width == offset(cols, models@.len() as int),
                out@.len() == (offset(rows, i as int) + k) * width,
                forall|p: int, r: int, j: int, c: int|
                    #![trigger out@[stack_place(models@, part, p, r, j, c)]]
                    0 <= p && (p < i || p == i && r < k) && 0 <= r < part_rows(models@[p], part)
                        && 0 <= j < models@.len() && 0 <= c < part_cols(models@[j], part)
                        ==> stack_entry(
                        models@,
                        part,
                        p,
                        r,
                        j,
                        c,
                        out@[stack_place(models@, part, p, r, j, c)],
                    ),
            decreases height - k,
        {
            let ghost prior = out@;
            let ghost row = offset(rows, i as int) + k;
            push_row(&mut out, models, part, i, k);
            proof {
                lemma_offset_monotone(rows, 0, i as int);
                assert((row + 1) * width == row * width + width) by (nonlinear_arith);
                assert forall|p: int, r: int, j: int, c: int|
                    0 <= p && (p < i || p == i && r < k + 1) && 0 <= r < part_rows(
                        models@[p],
                        part,
                    ) && 0 <= j < models@.len() && 0 <= c < part_cols(
                        models@[j],
                        part,
                    ) implies stack_entry(
                    models@,
                    part,
                    p,
                    r,
                    j,
                    c,
                    #[trigger] out@[stack_place(models@, part, p, r, j, c)],
                ) by {
                    assert(cols[j] == part_cols(models@[j], part));
                    assert(offset(cols, j + 1) == offset(cols, j) + cols[j]);
                    lemma_offset_monotone(cols, j + 1, models@.len() as int);
                    lemma_offset_monotone(cols, 0, j);
                    let at = stack_place(models@, part, p, r, j, c);
                    let col = offset(cols, j) + c;
                    if p < i || r < k {
                        assert(rows[p] == part_rows(models@[p], part));
                        if p < i {
                            assert(offset(rows, p + 1) == offset(rows, p) + rows[p]);
                            lemma_offset_monotone(rows, p + 1, i as int);
                        }
                        lemma_offset_monotone(rows, 0, p);
                        lemma_earlier_place(width, offset(rows, p) + r, col, row, 0);
                        assert(at < prior.len());
                        assert(out@.take(prior.len() as int)[at] == out@[at]);
                    } else {
                        assert(at == prior.len() + offset(cols, j) + c);
                        assert(out@[prior.len() + offset(cols, j) + c] == out@[at]);
                    }
                }
            }
            k += 1;
        }
        i += 1;
    }
    out
}

/// Input widths of the blocks.
pub open spec fn input_sizes<F>(blocks: Seq<LinearBlock<F>>) -> Seq<usize> {
    blocks.map_values(|b: LinearBlock<F>| b.nu)
}

/// Output widths of the blocks.
pub open spec fn output_sizes<F>(blocks: Seq<LinearBlock<F>>) -> Seq<usize> {
    blocks.map_values(|b: LinearBlock<F>| b.ny)
}

/// State counts of the blocks.
pub open spec fn state_sizes<F>(blocks: Seq<LinearBlock<F>>) -> Seq<usize> {
    blocks.map_values(|b: LinearBlock<F>| b.nx)
}

/// Number of inputs of all blocks.
pub open spec fn input_total<F>(blocks: Seq<LinearBlock<F>>) -> int {
    offset(input_sizes(blocks), blocks.len() as int)
}

/// Number of outputs of all blocks.
pub open spec fn output_total<F>(blocks: Seq<LinearBlock<F>>) -> int {
    offset(output_sizes(blocks), blocks.len() as int)
}

/// Number of states of all blocks.
pub open spec fn state_total<F>(blocks: Seq<LinearBlock<F>>) -> int {
    offset(state_sizes(blocks), blocks.len() as int)
}

/// The blocks are well formed, and the matrices of the assembly fit in memory.
pub open spec fn assemblable<F: Scalar>(blocks: Seq<LinearBlock<F>>) -> bool {
    let (v, w, x) = (input_total(blocks), output_total(blocks), state_total(blocks));
    &&& forall|i: int| 0 <= i < blocks.len() ==> (#[trigger] blocks[i]).well_formed()
    &&& v <= usize::MAX && w <= usize::MAX && x <= usize::MAX
    &&& v * v <= usize::MAX
    &&& v * w <= usize::MAX
    &&& v * x <= usize::MAX
    &&& x * x <= usize::MAX
    &&& w * x <= usize::MAX
}

/// The blocks that have states, each with their number.
pub open spec fn state_layout<F>(blocks: Seq<LinearBlock<F>>, n: int) -> Seq<(usize, usize)>
    decreases n,
{
    if n <= 0 {
        Seq::empty()
    } else if blocks[n - 1].nx > 0 {
        state_layout(blocks, n - 1).push(((n - 1) as usize, blocks[n - 1].nx))
    } else {
        state_layout(blocks, n - 1)
    }
}

/// Every model is that of its block.
pub open spec fn models_of<F: Scalar>(blocks: Seq<LinearBlock<F>>, models: Seq<LocalModel<F>>) -> bool {
    &&& models.len() == blocks.len()
    &&& forall|i: int| 0 <= i < blocks.len() ==> blocks[i].models(#[trigger] models[i])
}

/// Where the inputs, outputs and states of each block begin.
pub struct Layout {
    pub ports: PortLayout,
    pub x_off: Vec<usize>,
    pub n_x: usize,
    /// Blocks that have states, each with their number.
    pub x_layout: Vec<(usize, usize)>,
}

/// `layout` numbers inputs, outputs and states block by block.
pub open spec fn laid_out<F>(blocks: Seq<LinearBlock<F>>, layout: Layout) -> bool {
    let n = blocks.len() as int;
    &&& layout.ports.v_off@.len() == n
    &&& layout.ports.w_off@.len() == n
    &&& layout.x_off@.len() == n
    &&& forall|i: int|
        0 <= i < n ==> #[trigger] layout.ports.v_off@[i] == offset(input_sizes(blocks), i)
    &&& forall|i: int|
        0 <= i < n ==> #[trigger] layout.ports.w_off@[i] == offset(output_sizes(blocks), i)
    &&& forall|i: int| 0 <= i < n ==> #[trigger] layout.x_off@[i] == offset(state_sizes(blocks), i)
    &&& layout.ports.n_v == input_total(blocks)
    &&& layout.ports.n_w == output_total(blocks)
    &&& layout.n_x == state_total(blocks)
    &&& layout.x_layout@ == state_layout(blocks, n)
}

fn lay_out<F: Scalar>(blocks: &Vec<LinearBlock<F>>) -> (layout: Layout)
    requires
        assemblable(blocks@),
    ensures
        laid_out(blocks@, layout),
{
    let mut v_off: Vec<usize> = Vec::new();
    let mut w_off: Vec<usize> = Vec::new();
    let mut x_off: Vec<usize> = Vec::new();
    let mut x_layout: Vec<(usize, usize)> = Vec::new();
    let mut n_v: usize = 0;
    let mut n_w: usize = 0;
    let mut n_x: usize = 0;
    let mut i: usize = 0;
    while i < blocks.len()
        invariant
            i <= blocks.len(),
            assemblable(blocks@),
            v_off@.len() == i,
            w_off@.len() == i,
            x_off@.len() == i,
            n_v == offset(input_sizes(blocks@), i as int),
            n_w == offset(output_sizes(blocks@), i as int),
            n_x == offset(state_sizes(blocks@), i as int),
            forall|k: int|
                0 <= k < i ==> #[trigger] v_off@[k] == offset(input_sizes(blocks@), k),
            forall|k: int|
                0 <= k < i ==> #[trigger] w_off@[k] == offset(output_sizes(blocks@), k),
            forall|k: int|
                0 <= k < i ==> #[trigger] x_off@[k] == offset(state_sizes(blocks@), k),
            x_layout@ == state_layout(blocks@, i as int),
        decreases blocks.len() - i,
    {
        proof {
            assert(input_sizes(blocks@)[i as int] == blocks@[i as int].nu);
            assert(output_sizes(blocks@)[i as int] == blocks@[i as int].ny);
            assert(state_sizes(blocks@)[i as int] == blocks@[i as int].nx);
            lemma_offset_monotone(input_sizes(blocks@), i + 1, blocks@.len() as int);
            lemma_offset_monotone(output_sizes(blocks@), i + 1, blocks@.len() as int);
            lemma_offset_monotone(state_sizes(blocks@), i + 1, blocks@.len() as int);
        }
        v_off.push(n_v);
        w_off.push(n_w);
        x_off.push(n_x);
        n_v = n_v + blocks[i].nu;
        n_w = n_w + blocks[i].ny;
        if blocks[i].nx > 0 {
            x_layout.push((i, blocks[i].nx));
            n_x = n_x + blocks[i].nx;
        }
        i += 1;
    }
    Layout { ports: PortLayout { v_off, w_off, n_v, n_w }, x_off, n_x, x_layout }
}

/// Name of the first block without linear model.
pub open spec fn first_refusing<F>(blocks: Seq<LinearBlock<F>>, i: int) -> bool {
    0 <= i < blocks.len() && !blocks[i].linearizable && forall|k: int|
        0 <= k < i ==> (#[trigger] blocks[k]).linearizable
}

/// Every block has a linear model.
pub open spec fn all_linearizable<F>(blocks: Seq<LinearBlock<F>>) -> bool {
    forall|k: int| 0 <= k < blocks.len() ==> (#[trigger] blocks[k]).linearizable
}

fn collect_models<F: Scalar>(blocks: &Vec<LinearBlock<F>>) -> (r: Result<
    Vec<LocalModel<F>>,
    SimError<F>,
>)
    requires
        assemblable(blocks@),
    ensures
        r is Ok <==> all_linearizable(blocks@),
        r is Ok ==> models_of(blocks@, r->Ok_0@) && all_well_shaped(r->Ok_0@),
        r is Err ==> exists|i: int| #[trigger]
            first_refusing(blocks@, i) && (r->Err_0 matches SimError::NotLinearizable(name)
                && name@ == blocks@[i].kind_name@),
{
    let mut models: Vec<LocalModel<F>> = Vec::with_capacity(blocks.len());
    let mut i: usize = 0;
    while i < blocks.len()
        invariant
            i <= blocks.len(),
            assemblable(blocks@),
            models@.len() == i,
            forall|k: int| 0 <= k < i ==> (#[trigger] blocks@[k]).linearizable,
            forall|k: int| 0 <= k < i ==> blocks@[k].models(#[trigger] models@[k]),
            forall|k: int| 0 <= k < i ==> (#[trigger] models@[k]).well_shaped(),
        decreases blocks.len() - i,
    {
        match blocks[i].to_statespace() {
            Ok(m) => models.push(m),
            Err(e) => {
                assert(first_refusing(blocks@, i as int));
                return Err(e);
            },
        }
        i += 1;
    }
    Ok(models)
}

/// Stacked local models and interconnection of a diagram, before elimination.
pub struct System<F> {
    pub layout: Layout,
    pub a_b: Vec<F>,
    pub b_b: Vec<F>,
    pub c_b: Vec<F>,
    pub d_b: Vec<F>,
    /// Interconnection matrix.
    pub l: Vec<F>,
    /// `L C`.
    pub lc: Vec<F>,
    /// `I - L D`.
    pub sys: Vec<F>,
}

/// `s` stacks the models and wires the connections, where `ld` is `L D`.
pub open spec fn system_with<F: Scalar>(
    blocks: Seq<LinearBlock<F>>,
    conns: Seq<ConnModel>,
    broken: Seq<(usize, usize)>,
    models: Seq<LocalModel<F>>,
    ld: Seq<F>,
    s: System<F>,
) -> bool {
    let (v, w, x) = (input_total(blocks), output_total(blocks), state_total(blocks));
    &&& laid_out(blocks, s.layout)
    &&& models_of(blocks, models)
    &&& stacked(models, Part::A, s.a_b@)
    &&& stacked(models, Part::B, s.b_b@)
    &&& stacked(models, Part::C, s.c_b@)
    &&& stacked(models, Part::D, s.d_b@)
    &&& interconnection(
        block_ids(blocks),
        conns,
        broken,
        s.layout.ports,
        conns.len() as int,
        s.l@,
    )
    &&& product(s.l@, s.c_b@, v, w, x, s.lc@)
    &&& product(s.l@, s.d_b@, v, w, v, ld)
    &&& identity_less(ld, v, s.sys@)
}

/// `s` is the system of a diagram.
pub open spec fn system_of<F: Scalar>(
    blocks: Seq<LinearBlock<F>>,
    conns: Seq<ConnModel>,
    broken: Seq<(usize, usize)>,
    s: System<F>,
) -> bool {
    exists|models: Seq<LocalModel<F>>, ld: Seq<F>| #[trigger]
        system_with(blocks, conns, broken, models, ld, s)
}

/// The sizes of a system.
pub open spec fn sized<F>(blocks: Seq<LinearBlock<F>>, s: System<F>) -> bool {
    let (v, w, x) = (input_total(blocks), output_total(blocks), state_total(blocks));
    &&& s.a_b@.len() == x * x
    &&& s.b_b@.len() == x * v
    &&& s.c_b@.len() == w * x
    &&& s.d_b@.len() == w * v
    &&& s.l@.len() == v * w
    &&& s.lc@.len() == v * x
    &&& s.sys@.len() == v * v
}

proof fn lemma_sizes_agree<F: Scalar>(blocks: Seq<LinearBlock<F>>, models: Seq<LocalModel<F>>)
    requires
        models_of(blocks, models),
    ensures
        row_sizes(models, Part::A) == state_sizes(blocks),
        col_sizes(models, Part::A) == state_sizes(blocks),
        row_sizes(models, Part::B) == state_sizes(blocks),
        col_sizes(models, Part::B) == input_sizes(blocks),
        row_sizes(models, Part::C) == output_sizes(blocks),
        col_sizes(models, Part::C) == state_sizes(blocks),
        row_sizes(models, Part::D) == output_sizes(blocks),
        col_sizes(models, Part::D) == input_sizes(blocks),
{
    assert forall|i: int| 0 <= i < blocks.len() implies #[trigger] models[i].nx == blocks[i].nx
        && models[i].nu == blocks[i].nu && models[i].ny == blocks[i].ny by {
        assert(blocks[i].models(models[i]));
    }
    assert(row_sizes(models, Part::A) =~= state_sizes(blocks));
    assert(col_sizes(models, Part::A) =~= state_sizes(blocks));
    assert(row_sizes(models, Part::B) =~= state_sizes(blocks));
    assert(col_sizes(models, Part::B) =~= input_sizes(blocks));
    assert(row_sizes(models, Part::C) =~= output_sizes(blocks));
    assert(col_sizes(models, Part::C) =~= state_sizes(blocks));
    assert(row_sizes(models, Part::D) =~= output_sizes(blocks));
    assert(col_sizes(models, Part::D) =~= input_sizes(blocks));
}

proof fn lemma_layout_bounded<F>(blocks: Seq<LinearBlock<F>>, layout: Layout)
    requires
        laid_out(blocks, layout),
    ensures
        layout.ports.bounded(blocks.len()),
{
    assert forall|i: int| 0 <= i < blocks.len() implies #[trigger] layout.ports.v_off@[i]
        <= layout.ports.n_v by {
        lemma_offset_monotone(input_sizes(blocks), i, blocks.len() as int);
    }
    assert forall|i: int| 0 <= i < blocks.len() implies #[trigger] layout.ports.w_off@[i]
        <= layout.ports.n_w by {
        lemma_offset_monotone(output_sizes(blocks), i, blocks.len() as int);
    }
}

/// Stacks the models of the blocks and wires the connections; the inputs in
/// `broken` are driven from outside. Fails at the first block without linear
/// model.
pub fn build_system<F: Scalar>(
    blocks: &Vec<LinearBlock<F>>,
    conns: &Vec<ConnModel>,
    broken: &Vec<(usize, usize)>,
) -> (r: Result<System<F>, SimError<F>>)
    requires
        assemblable(blocks@),
    ensures
        r is Ok <==> all_linearizable(blocks@),
        r is Ok ==> system_of(blocks@, conns@, broken@, r->Ok_0) && sized(blocks@, r->Ok_0)
            && laid_out(blocks@, r->Ok_0.layout),
        r is Err ==> exists|i: int| #[trigger]
            first_refusing(blocks@, i) && (r->Err_0 matches SimError::NotLinearizable(name)
                && name@ == blocks@[i].kind_name@),
{
    let models: Vec<LocalModel<F>> = match collect_models(blocks) {
        Ok(m) => m,
        Err(e) => {
            return Err(e);
        },
    };
    let layout: Layout = lay_out(blocks);
    proof {
        lemma_sizes_agree(blocks@, models@);
        lemma_layout_bounded(blocks@, layout);
    }
    let a_b: Vec<F> = stack(&models, Part::A);
    let b_b: Vec<F> = stack(&models, Part::B);
    let c_b: Vec<F> = stack(&models, Part::C);
    let d_b: Vec<F> = stack(&models, Part::D);
    let n_v: usize = layout.ports.n_v;
    let n_w: usize = layout.ports.n_w;
    let n_x: usize = layout.n_x;
    let l: Vec<F> = interconnect(blocks, conns, broken, &layout.ports);
    let lc: Vec<F> = matmul(l.as_slice(), c_b.as_slice(), n_v, n_w, n_x);
    let ld: Vec<F> = matmul(l.as_slice(), d_b.as_slice(), n_v, n_w, n_v);
    let sys: Vec<F> = less_from_identity(ld.as_slice(), n_v);
    let s: System<F> = System { layout, a_b, b_b, c_b, d_b, l, lc, sys };
    assert(system_with(blocks@, conns@, broken@, models@, ld@, s));
    Ok(s)
}

/// A diagram with its internal signals eliminated.
pub struct Assembly<F> {
    pub system: System<F>,
    /// Closed-loop `A`.
    pub a: Vec<F>,
    /// Closed-loop `C` over all block outputs.
    pub c_full: Vec<F>,
}

/// `assembled` eliminates the internal signals of its system, where `glc` solves for
/// `L C` and `bg`, `dg` are its products with `B` and `D`.
pub open spec fn eliminated_with<F: Scalar, B: Backend<F>>(
    blocks: Seq<LinearBlock<F>>,
    assembled: Assembly<F>,
    glc: Seq<F>,
    bg: Seq<F>,
    dg: Seq<F>,
) -> bool {
    let (v, w, x) = (input_total(blocks), output_total(blocks), state_total(blocks));
    let s = assembled.system;
    &&& solves_columns::<F, B>(s.sys@, s.lc@, v as usize, x, glc)
    &&& product(s.b_b@, glc, x, v, x, bg)
    &&& sums(bg, s.a_b@, assembled.a@)
    &&& product(s.d_b@, glc, w, v, x, dg)
    &&& sums(dg, s.c_b@, assembled.c_full@)
}

/// The system passed the check that it determines the internal signals.
pub open spec fn well_posed<F: Scalar, B: Backend<F>>(sys: Seq<F>, n: usize) -> bool {
    n > 0 ==> exists|e: Seq<F>, z: Seq<F>| #[trigger]
        first_unit(n as int, e) && #[trigger] checked_solution::<F, B>(sys, e, n, z)
}

/// The system failed the check that it determines the internal signals.
pub open spec fn ill_posed<F: Scalar, B: Backend<F>>(sys: Seq<F>, n: usize) -> bool {
    exists|e: Seq<F>, z: Seq<F>| #[trigger]
        first_unit(n as int, e) && #[trigger] failed_solution::<F, B>(sys, e, n, z)
}

/// `assembled` is the assembly of a diagram.
pub open spec fn assembly_of<F: Scalar, B: Backend<F>>(
    blocks: Seq<LinearBlock<F>>,
    conns: Seq<ConnModel>,
    broken: Seq<(usize, usize)>,
    assembled: Assembly<F>,
) -> bool {
    &&& system_of(blocks, conns, broken, assembled.system)
    &&& well_posed::<F, B>(assembled.system.sys@, input_total(blocks) as usize)
    &&& exists|glc: Seq<F>, bg: Seq<F>, dg: Seq<F>| #[trigger]
        eliminated_with::<F, B>(blocks, assembled, glc, bg, dg)
}

/// The system of a diagram fails a check: the one for being well posed, or that
/// of a column of `L C`.
pub open spec fn unsolvable<F: Scalar, B: Backend<F>>(
    blocks: Seq<LinearBlock<F>>,
    conns: Seq<ConnModel>,
    broken: Seq<(usize, usize)>,
) -> bool {
    exists|s: System<F>| #[trigger]
        system_of(blocks, conns, broken, s) && {
            ||| ill_posed::<F, B>(s.sys@, input_total(blocks) as usize)
            ||| fails_column::<F, B>(
                s.sys@,
                s.lc@,
                input_total(blocks) as usize,
                state_total(blocks),
            )
        }
}

/// `e` is why a diagram cannot be assembled: its first block without linear model,
/// or else an interconnection that fails a check.
pub open spec fn refusal<F: Scalar, B: Backend<F>>(
    blocks: Seq<LinearBlock<F>>,
    conns: Seq<ConnModel>,
    broken: Seq<(usize, usize)>,
    e: SimError<F>,
) -> bool {
    if all_linearizable(blocks) {
        e is LinearizationIllPosed && unsolvable::<F, B>(blocks, conns, broken)
    } else {
        exists|i: int| #[trigger]
            first_refusing(blocks, i) && (e matches SimError::NotLinearizable(name) && name@
                == blocks[i].kind_name@)
    }
}

impl<F: Scalar> Assembly<F> {
    /// The sizes of an assembly.
    pub open spec fn sized(&self, blocks: Seq<LinearBlock<F>>) -> bool {
        &&& sized(blocks, self.system)
        &&& laid_out(blocks, self.system.layout)
        &&& self.a@.len() == state_total(blocks) * state_total(blocks)
        &&& self.c_full@.len() == output_total(blocks) * state_total(blocks)
    }

    /// Stacks the local models, wires the connections and eliminates the internal
    /// signals. `broken` lists the block inputs that are driven from outside.
    pub fn build<B: Backend<F>>(
        blocks: &Vec<LinearBlock<F>>,
        conns: &Vec<ConnModel>,
        broken: &Vec<(usize, usize)>,
    ) -> (r: Result<Self, SimError<F>>)
        requires
            assemblable(blocks@),
        ensures
            r is Ok ==> all_linearizable(blocks@) && assembly_of::<F, B>(
                blocks@,
                conns@,
                broken@,
                r->Ok_0,
            ) && r->Ok_0.sized(blocks@),
            r is Err ==> refusal::<F, B>(blocks@, conns@, broken@, r->Err_0),
    {
        let s: System<F> = match build_system(blocks, conns, broken) {
            Ok(s) => s,
            Err(e) => {
                return Err(e);
            },
        };
        let n_v: usize = s.layout.ports.n_v;
        let n_w: usize = s.layout.ports.n_w;
        let n_x: usize = s.layout.n_x;
        match check_well_posed::<F, B>(&s.sys, n_v) {
            Ok(_) => {},
            Err(e) => {
                assert(unsolvable::<F, B>(blocks@, conns@, broken@));
                return Err(e);
            },
        }
        let glc: Vec<F> = match solve_columns::<F, B>(&s.sys, &s.lc, n_v, n_x) {
            Ok(g) => g,
            Err(e) => {
                assert(unsolvable::<F, B>(blocks@, conns@, broken@));
                return Err(e);
            },
        };
        let bg: Vec<F> = matmul(s.b_b.as_slice(), glc.as_slice(), n_x, n_v, n_x);
        let a: Vec<F> = sum(bg.as_slice(), s.a_b.as_slice());
        let dg: Vec<F> = matmul(s.d_b.as_slice(), glc.as_slice(), n_w, n_v, n_x);
        let c_full: Vec<F> = sum(dg.as_slice(), s.c_b.as_slice());
        let assembled: Assembly<F> = Assembly { system: s, a, c_full };
        assert(eliminated_with::<F, B>(blocks@, assembled, glc@, bg@, dg@));
        Ok(assembled)
    }
}

} // verus!
