//! What a linear model says of its diagram, where arithmetic is exact: every block follows
//! its own derivatives, and every input takes what drives it or is joined to it.

use vstd::prelude::*;

use crate::algebra::{
    lemma_distributes, lemma_reorders, lemma_scales, lemma_total_plus, lemma_total_same,
    lemma_total_scale, lemma_total_single, lemma_total_swap, lemma_total_zero, total,
};
use crate::exact::{exact, size};
use crate::ir::scope::first_at;
use crate::linearize::assembly::{
    assembly_of, col_sizes, eliminated_with, input_sizes, input_total, lemma_offset_monotone,
    models_of, offset, output_sizes, output_total, part_cols, part_rows, row_sizes, stack_entry,
    stack_place, stacked, state_sizes, state_total, system_of, system_with, Assembly, Part,
    System,
};
use crate::linearize::global::{
    all_pairs, derivative_column, driven, driven_with, enters, global_of, global_with,
    injection_with, lemma_driven_sizes, negations, output_column, padded, param_matrices,
    param_system, response, response_with, sensitivity_of, tapped, tapped_row, GlobalModel,
};
use crate::linearize::local::{
    first_named, fitted_entry, param_derivative, Jacobian, LinearBlock, LocalModel, ParamColumn,
};
use crate::linearize::solve::{
    checked_solution, column, exceeds, exceeds_steps, row_check, row_ok, row_sum,
    solves_columns, RESIDUAL_TOLERANCE_INVERSE,
};
use crate::linearize::wiring::{block_ids, position, wire, wired};
use crate::matrix::{identity_entry_less, lemma_place_bounds, place, product, row_product};
use crate::model::ConnModel;
use crate::optim::linsolve::Backend;
use crate::scalar::{adds, eqs, muls, negs, nonzeros, ones, ratios, zeros, Scalar};

verus! {

/// Block `i` is the one that `key` stands for: the first with that key.
pub open spec fn stands_for<F>(blocks: Seq<LinearBlock<F>>, key: u64, i: int) -> bool {
    &&& 0 <= i < blocks.len()
    &&& blocks[i].key == key
    &&& forall|j: int| 0 <= j < i ==> (#[trigger] blocks[j]).key != key
}

/// Pair `k` of target `t` of connection `ci` joins output `s` of block `a` to input `d` of
/// block `b`.
pub open spec fn joins<F>(
    blocks: Seq<LinearBlock<F>>,
    conns: Seq<ConnModel>,
    ci: int,
    t: int,
    k: int,
    a: int,
    s: int,
    b: int,
    d: int,
) -> bool {
    &&& 0 <= ci < conns.len()
    &&& 0 <= t < conns[ci].targets@.len()
    &&& 0 <= k < conns[ci].source.indices@.len()
    &&& k < conns[ci].targets@[t].indices@.len()
    &&& stands_for(blocks, conns[ci].source.block, a)
    &&& stands_for(blocks, conns[ci].targets@[t].block, b)
    &&& conns[ci].source.indices@[k] == s
    &&& conns[ci].targets@[t].indices@[k] == d
}

/// Output `s` of block `a` is joined to input `d` of block `b`.
pub open spec fn joined<F>(
    blocks: Seq<LinearBlock<F>>,
    conns: Seq<ConnModel>,
    a: int,
    s: int,
    b: int,
    d: int,
) -> bool {
    exists|ci: int, t: int, k: int| #[trigger] joins(blocks, conns, ci, t, k, a, s, b, d)
}

/// Connections name outputs and inputs that their blocks have.
pub open spec fn wires_fit<F>(blocks: Seq<LinearBlock<F>>, conns: Seq<ConnModel>) -> bool {
    forall|ci: int, t: int, k: int, a: int, s: int, b: int, d: int| #[trigger]
        joins(blocks, conns, ci, t, k, a, s, b, d) ==> s < blocks[a].ny && d < blocks[b].nu
}

/// Row of input `d` of block `b` among all inputs.
pub open spec fn input_row<F>(blocks: Seq<LinearBlock<F>>, b: int, d: int) -> int {
    offset(input_sizes(blocks), b) + d
}

/// Row of output `s` of block `a` among all outputs.
pub open spec fn output_row<F>(blocks: Seq<LinearBlock<F>>, a: int, s: int) -> int {
    offset(output_sizes(blocks), a) + s
}

/// Row of state `r` of block `i` among all states.
pub open spec fn state_row<F>(blocks: Seq<LinearBlock<F>>, i: int, r: int) -> int {
    offset(state_sizes(blocks), i) + r
}

/// Rows of a block lie among all rows.
proof fn lemma_row_bounds(sizes: Seq<usize>, i: int, r: int)
    requires
        0 <= i < sizes.len(),
        0 <= r < sizes[i],
    ensures
        0 <= offset(sizes, i) + r < offset(sizes, sizes.len() as int),
{
    lemma_offset_monotone(sizes, 0, i);
    lemma_offset_monotone(sizes, i + 1, sizes.len() as int);
}

/// Every row is one of a block.
proof fn lemma_row_owner(sizes: Seq<usize>, n: int, p: int) -> (o: (int, int))
    requires
        0 <= n <= sizes.len(),
        0 <= p < offset(sizes, n),
    ensures
        0 <= o.0 < n,
        0 <= o.1 < sizes[o.0],
        p == offset(sizes, o.0) + o.1,
    decreases n,
{
    if p >= offset(sizes, n - 1) {
        (n - 1, p - offset(sizes, n - 1))
    } else {
        lemma_row_owner(sizes, n - 1, p)
    }
}

/// A row is that of one block only.
proof fn lemma_row_unique(sizes: Seq<usize>, i: int, r: int, j: int, c: int)
    requires
        0 <= i < sizes.len(),
        0 <= j < sizes.len(),
        0 <= r < sizes[i],
        0 <= c < sizes[j],
        offset(sizes, i) + r == offset(sizes, j) + c,
    ensures
        i == j,
        r == c,
{
    if i < j {
        lemma_offset_monotone(sizes, i + 1, j);
    } else if j < i {
        lemma_offset_monotone(sizes, j + 1, i);
    }
}

proof fn lemma_position<F>(blocks: Seq<LinearBlock<F>>, key: u64)
    ensures
        position(block_ids(blocks), key) matches Some(i) ==> stands_for(blocks, key, i),
        forall|i: int| #[trigger]
            stands_for(blocks, key, i) ==> position(block_ids(blocks), key) == Some(i),
{
    let keys = block_ids(blocks);
    if position(keys, key) is Some {
        let i = choose|i: int| first_at(keys, key, i);
        assert(first_at(keys, key, i));
        assert forall|j: int| 0 <= j < i implies (#[trigger] blocks[j]).key != key by {
            assert(keys[j] != key);
        }
    }
    assert forall|i: int| #[trigger] stands_for(blocks, key, i) implies position(keys, key) == Some(
        i,
    ) by {
        assert forall|j: int| 0 <= j < i implies #[trigger] keys[j] != key by {
            assert(blocks[j].key != key);
        }
        assert(first_at(keys, key, i));
        let k = choose|k: int| first_at(keys, key, k);
        assert(first_at(keys, key, k));
        if k < i {
            assert(keys[k] != key);
        } else if i < k {
            assert(keys[i] != key);
        }
    }
}

/// The interconnection joins outputs to inputs as the connections say, but for the inputs
/// that are driven from outside: their rows are all zero.
pub proof fn law_interconnection<F: Scalar>(
    blocks: Seq<LinearBlock<F>>,
    conns: Seq<ConnModel>,
    broken: Seq<(usize, usize)>,
    s: System<F>,
)
    requires
        system_of(blocks, conns, broken, s),
        wires_fit(blocks, conns),
    ensures
        s.l@.len() == input_total(blocks) * output_total(blocks),
        forall|b: int, d: int, a: int, o: int|
            #![trigger s.l@[place(output_total(blocks), input_row(blocks, b, d), output_row(
                blocks,
                a,
                o,
            ))]]
            0 <= b < blocks.len() && 0 <= d < blocks[b].nu && 0 <= a < blocks.len() && 0 <= o
                < blocks[a].ny ==> {
                let v = s.l@[place(
                    output_total(blocks),
                    input_row(blocks, b, d),
                    output_row(blocks, a, o),
                )];
                if joined(blocks, conns, a, o, b, d) && !broken.contains((b as usize, d as usize)) {
                    ones(v)
                } else {
                    zeros(v)
                }
            },
{
    let (models, ld) = choose|models: Seq<LocalModel<F>>, ld: Seq<F>| #[trigger]
        system_with(blocks, conns, broken, models, ld, s);
    let keys = block_ids(blocks);
    let ports = s.layout.ports;
    let n = conns.len() as int;
    assert forall|b: int, d: int, a: int, o: int|
        0 <= b < blocks.len() && 0 <= d < blocks[b].nu && 0 <= a < blocks.len() && 0 <= o
            < blocks[a].ny implies {
        let v = #[trigger] s.l@[place(
            output_total(blocks),
            input_row(blocks, b, d),
            output_row(blocks, a, o),
        )];
        if joined(blocks, conns, a, o, b, d) && !broken.contains((b as usize, d as usize)) {
            ones(v)
        } else {
            zeros(v)
        }
    } by {
        let (r, c) = (input_row(blocks, b, d), output_row(blocks, a, o));
        lemma_row_bounds(input_sizes(blocks), b, d);
        lemma_row_bounds(output_sizes(blocks), a, o);
        if joined(blocks, conns, a, o, b, d) && !broken.contains((b as usize, d as usize)) {
            let (ci, t, k) = choose|ci: int, t: int, k: int| #[trigger]
                joins(blocks, conns, ci, t, k, a, o, b, d);
            lemma_position(blocks, conns[ci].source.block);
            lemma_position(blocks, conns[ci].targets@[t].block);
            assert(ports.v_off@[b] == offset(input_sizes(blocks), b));
            assert(ports.w_off@[a] == offset(output_sizes(blocks), a));
            assert(wire(keys, conns, broken, ports, ci, t, k, r, c));
            assert(wired(keys, conns, broken, ports, n, r, c));
        }
        if wired(keys, conns, broken, ports, n, r, c) {
            let (ci, t, k) = choose|ci: int, t: int, k: int|
                0 <= ci < n && #[trigger] wire(keys, conns, broken, ports, ci, t, k, r, c);
            lemma_position(blocks, conns[ci].source.block);
            lemma_position(blocks, conns[ci].targets@[t].block);
            let from = position(keys, conns[ci].source.block)->Some_0;
            let to = position(keys, conns[ci].targets@[t].block)->Some_0;
            let (e, f) = (
                conns[ci].source.indices@[k] as int,
                conns[ci].targets@[t].indices@[k] as int,
            );
            assert(joins(blocks, conns, ci, t, k, from, e, to, f));
            assert(ports.v_off@[to] == offset(input_sizes(blocks), to));
            assert(ports.w_off@[from] == offset(output_sizes(blocks), from));
            lemma_row_unique(input_sizes(blocks), b, d, to, f);
            lemma_row_unique(output_sizes(blocks), a, o, from, e);
        }
    }
}

/// An input that is driven from outside takes nothing from any block output.
pub proof fn law_driven_inputs_take_nothing<F: Scalar, B: Backend<F>>(
    blocks: Seq<LinearBlock<F>>,
    conns: Seq<ConnModel>,
    in_cols: Seq<Vec<(usize, usize)>>,
    assembled: Assembly<F>,
    c: int,
    m: int,
)
    requires
        assembly_of::<F, B>(blocks, conns, all_pairs(in_cols), assembled),
        wires_fit(blocks, conns),
        0 <= c < in_cols.len(),
        0 <= m < in_cols[c]@.len(),
        in_cols[c]@[m].0 < blocks.len(),
        in_cols[c]@[m].1 < blocks[in_cols[c]@[m].0 as int].nu,
    ensures
        forall|o: int|
            #![trigger assembled.system.l@[place(output_total(blocks), input_row(
                blocks,
                in_cols[c]@[m].0 as int,
                in_cols[c]@[m].1 as int,
            ), o)]]
            0 <= o < output_total(blocks) ==> zeros(
                assembled.system.l@[place(
                    output_total(blocks),
                    input_row(blocks, in_cols[c]@[m].0 as int, in_cols[c]@[m].1 as int),
                    o,
                )],
            ),
{
    let broken = all_pairs(in_cols);
    let (b, d) = (in_cols[c]@[m].0 as int, in_cols[c]@[m].1 as int);
    law_interconnection(blocks, conns, broken, assembled.system);
    lemma_all_pairs(in_cols, c, m);
    assert(broken.contains((b as usize, d as usize)));
    assert forall|o: int| 0 <= o < output_total(blocks) implies zeros(
        #[trigger] assembled.system.l@[place(
            output_total(blocks),
            input_row(blocks, b, d),
            o,
        )],
    ) by {
        let sizes = output_sizes(blocks);
        let (a, s) = lemma_row_owner(sizes, blocks.len() as int, o);
        assert(o == output_row(blocks, a, s));
    }
}

proof fn lemma_all_pairs(cols: Seq<Vec<(usize, usize)>>, c: int, m: int)
    requires
        0 <= c < cols.len(),
        0 <= m < cols[c]@.len(),
    ensures
        all_pairs(cols).contains(cols[c]@[m]),
    decreases cols.len(),
{
    let before = all_pairs(cols.drop_last());
    if c == cols.len() - 1 {
        assert(all_pairs(cols)[before.len() + m] == cols[c]@[m]);
    } else {
        lemma_all_pairs(cols.drop_last(), c, m);
        let i = choose|i: int| 0 <= i < before.len() && before[i] == cols[c]@[m];
        assert(all_pairs(cols)[i] == cols[c]@[m]);
    }
}

/// Every pair is one of a column.
proof fn lemma_pair_owner(cols: Seq<Vec<(usize, usize)>>, pair: (usize, usize)) -> (o: (int, int))
    requires
        all_pairs(cols).contains(pair),
    ensures
        0 <= o.0 < cols.len(),
        0 <= o.1 < cols[o.0]@.len(),
        cols[o.0]@[o.1] == pair,
    decreases cols.len(),
{
    let before = all_pairs(cols.drop_last());
    let i = choose|i: int| 0 <= i < all_pairs(cols).len() && all_pairs(cols)[i] == pair;
    if i < before.len() {
        assert(before[i] == pair);
        let o = lemma_pair_owner(cols.drop_last(), pair);
        (o.0, o.1)
    } else {
        (cols.len() - 1, i - before.len())
    }
}

/// What the block tells of element `r` by the named parameter: the element of the first
/// column of that name, or nothing.
pub open spec fn told<F>(params: Seq<ParamColumn<F>>, name: Seq<char>, r: int) -> Option<F>
    decreases params.len(),
{
    if params.len() == 0 {
        None
    } else if params[0].name@ == name {
        if r < params[0].values@.len() {
            Some(params[0].values@[r])
        } else {
            None
        }
    } else {
        told(params.skip(1), name, r)
    }
}

/// `v` is what was told, or zero.
pub open spec fn as_told<F: Scalar>(told: Option<F>, v: F) -> bool {
    match told {
        Some(u) => v == u,
        None => zeros(v),
    }
}

proof fn lemma_told<F>(params: Seq<ParamColumn<F>>, name: Seq<char>, r: int)
    requires
        r >= 0,
    ensures
        forall|k: int| #[trigger]
            first_named(params, name, k) ==> told(params, name, r) == if r
                < params[k].values@.len() {
                Some(params[k].values@[r])
            } else {
                None
            },
        (forall|k: int| !#[trigger] first_named(params, name, k)) ==> told(params, name, r) is None,
    decreases params.len(),
{
    if params.len() > 0 {
        let rest = params.skip(1);
        if params[0].name@ == name {
            assert(first_named(params, name, 0));
            assert forall|k: int| #[trigger] first_named(params, name, k) implies k == 0 by {
                if k > 0 {
                    assert(params[0].name@ != name);
                }
            }
        } else {
            lemma_told(rest, name, r);
            assert forall|k: int| #[trigger]
                first_named(params, name, k) implies first_named(rest, name, k - 1) && rest[k - 1]
                == params[k] by {
                assert forall|j: int| 0 <= j < k - 1 implies (#[trigger] rest[j]).name@ != name by {
                    assert(params[j + 1].name@ != name);
                }
            }
            assert forall|k: int| #[trigger] first_named(rest, name, k) implies first_named(
                params,
                name,
                k + 1,
            ) by {
                assert forall|j: int| 0 <= j < k + 1 implies (#[trigger] params[j]).name@
                    != name by {
                    if j > 0 {
                        assert(rest[j - 1].name@ != name);
                    }
                }
            }
        }
    }
}

/// A parameter acts on its own block only: column `c` of `ex` holds, in the rows of the
/// states of the block of parameter `c`, what the block tells of its derivatives by the
/// parameter of that name, and zeros elsewhere; column `c` of `ew` likewise for outputs.
pub proof fn law_parameters_act_on_their_block<F: Scalar>(
    blocks: Seq<LinearBlock<F>>,
    params: Seq<(usize, String)>,
    ex: Seq<F>,
    ew: Seq<F>,
)
    requires
        param_matrices(blocks, params, ex, ew),
    ensures
        forall|c: int, i: int, r: int|
            #![trigger ex[place(params.len() as int, state_row(blocks, i, r), c)]]
            0 <= c < params.len() && 0 <= i < blocks.len() && 0 <= r < blocks[i].nx && params[c].0
                < blocks.len() ==> as_told(
                if i == params[c].0 {
                    told(blocks[i].f_params@, params[c].1@, r)
                } else {
                    None
                },
                ex[place(params.len() as int, state_row(blocks, i, r), c)],
            ),
        forall|c: int, i: int, r: int|
            #![trigger ew[place(params.len() as int, output_row(blocks, i, r), c)]]
            0 <= c < params.len() && 0 <= i < blocks.len() && 0 <= r < blocks[i].ny && params[c].0
                < blocks.len() ==> as_told(
                if i == params[c].0 {
                    told(blocks[i].g_params@, params[c].1@, r)
                } else {
                    None
                },
                ew[place(params.len() as int, output_row(blocks, i, r), c)],
            ),
{
    let n = params.len() as int;
    assert forall|c: int, i: int, r: int|
        0 <= c < n && 0 <= i < blocks.len() && 0 <= r < blocks[i].nx && params[c].0
            < blocks.len() implies as_told(
        if i == params[c].0 {
            told(blocks[i].f_params@, params[c].1@, r)
        } else {
            None
        },
        #[trigger] ex[place(n, state_row(blocks, i, r), c)],
    ) by {
        let sizes = state_sizes(blocks);
        let p = state_row(blocks, i, r);
        lemma_row_bounds(sizes, i, r);
        let col = column(ex, state_total(blocks), n, c);
        assert(derivative_column(blocks, params[c], col));
        let b = blocks[params[c].0 as int];
        let values = choose|values: Seq<F>| #[trigger]
            param_derivative(b.f_params@, params[c].1@, b.nx as int, values)
                && padded(
                state_total(blocks),
                offset(state_sizes(blocks), params[c].0 as int),
                values,
                col,
            );
        assert(col[p] == ex[place(n, p, c)]);
        lemma_told(b.f_params@, params[c].1@, r);
        if i == params[c].0 {
            assert(col[p] == values[r]);
        } else if offset(sizes, params[c].0 as int) <= p < offset(sizes, params[c].0 as int)
            + values.len() {
            lemma_row_unique(
                sizes,
                i,
                r,
                params[c].0 as int,
                p - offset(sizes, params[c].0 as int),
            );
        }
    }
    assert forall|c: int, i: int, r: int|
        0 <= c < n && 0 <= i < blocks.len() && 0 <= r < blocks[i].ny && params[c].0
            < blocks.len() implies as_told(
        if i == params[c].0 {
            told(blocks[i].g_params@, params[c].1@, r)
        } else {
            None
        },
        #[trigger] ew[place(n, output_row(blocks, i, r), c)],
    ) by {
        let sizes = output_sizes(blocks);
        let p = output_row(blocks, i, r);
        lemma_row_bounds(sizes, i, r);
        let col = column(ew, output_total(blocks), n, c);
        assert(output_column(blocks, params[c], col));
        let b = blocks[params[c].0 as int];
        let values = choose|values: Seq<F>| #[trigger]
            param_derivative(b.g_params@, params[c].1@, b.ny as int, values)
                && padded(
                output_total(blocks),
                offset(output_sizes(blocks), params[c].0 as int),
                values,
                col,
            );
        assert(col[p] == ew[place(n, p, c)]);
        lemma_told(b.g_params@, params[c].1@, r);
        if i == params[c].0 {
            assert(col[p] == values[r]);
        } else if offset(sizes, params[c].0 as int) <= p < offset(sizes, params[c].0 as int)
            + values.len() {
            lemma_row_unique(
                sizes,
                i,
                r,
                params[c].0 as int,
                p - offset(sizes, params[c].0 as int),
            );
        }
    }
}

/// Entry `(i, j)` of a Jacobian; zero where it has none.
pub open spec fn entry_of<F>(
    num: spec_fn(F) -> real,
    jac: Option<Jacobian<F>>,
    i: int,
    j: int,
) -> real {
    match jac {
        Some((values, n_rows, n_cols)) => if i < n_rows && j < n_cols {
            num(values@[i * n_cols + j])
        } else {
            0real
        },
        None => 0real,
    }
}

/// How element `r` of a block depends on element `p` of all: by its Jacobian on the `len`
/// elements from `lo` on that are the block's, and not at all on others.
pub open spec fn own<F>(
    num: spec_fn(F) -> real,
    jac: Option<Jacobian<F>>,
    lo: int,
    len: int,
    r: int,
    p: int,
) -> real {
    if lo <= p < lo + len {
        entry_of(num, jac, r, p - lo)
    } else {
        0real
    }
}

/// What element `r` of a block makes of the `n` elements `z` of all.
pub open spec fn made_of<F>(
    num: spec_fn(F) -> real,
    jac: Option<Jacobian<F>>,
    lo: int,
    len: int,
    r: int,
    n: int,
    z: spec_fn(int) -> real,
) -> real {
    total(n, |p: int| own(num, jac, lo, len, r, p) * z(p))
}

/// What the state makes of derivative `r` of block `i`.
pub open spec fn slope_by_state<F>(
    num: spec_fn(F) -> real,
    blocks: Seq<LinearBlock<F>>,
    i: int,
    r: int,
    x: spec_fn(int) -> real,
) -> real {
    made_of(num, blocks[i].f_x, state_row(blocks, i, 0), blocks[i].nx as int, r, state_total(blocks), x)
}

/// What the inputs make of derivative `r` of block `i`.
pub open spec fn slope_by_input<F>(
    num: spec_fn(F) -> real,
    blocks: Seq<LinearBlock<F>>,
    i: int,
    r: int,
    v: spec_fn(int) -> real,
) -> real {
    made_of(num, blocks[i].f_u, input_row(blocks, i, 0), blocks[i].nu as int, r, input_total(blocks), v)
}

/// What the state makes of output `r` of block `i`.
pub open spec fn output_by_state<F>(
    num: spec_fn(F) -> real,
    blocks: Seq<LinearBlock<F>>,
    i: int,
    r: int,
    x: spec_fn(int) -> real,
) -> real {
    made_of(num, blocks[i].g_x, state_row(blocks, i, 0), blocks[i].nx as int, r, state_total(blocks), x)
}

/// What the inputs make of output `r` of block `i`.
pub open spec fn output_by_input<F>(
    num: spec_fn(F) -> real,
    blocks: Seq<LinearBlock<F>>,
    i: int,
    r: int,
    v: spec_fn(int) -> real,
) -> real {
    made_of(num, blocks[i].g_u, input_row(blocks, i, 0), blocks[i].nu as int, r, input_total(blocks), v)
}

/// Output row `q` is joined to input `d` of block `b`.
pub open spec fn row_joined<F>(
    blocks: Seq<LinearBlock<F>>,
    conns: Seq<ConnModel>,
    q: int,
    b: int,
    d: int,
) -> bool {
    exists|a: int, s: int| #[trigger]
        joined(blocks, conns, a, s, b, d) && 0 <= a < blocks.len() && 0 <= s < blocks[a].ny && q
            == output_row(blocks, a, s)
}

/// The sum of the outputs `w` that are joined to input `d` of block `b`; none where it is
/// driven from outside.
pub open spec fn joined_sum<F>(
    blocks: Seq<LinearBlock<F>>,
    conns: Seq<ConnModel>,
    outside: spec_fn(int, int) -> bool,
    b: int,
    d: int,
    w: spec_fn(int) -> real,
) -> real {
    total(
        output_total(blocks),
        |q: int|
            if row_joined(blocks, conns, q, b, d) && !outside(b, d) {
                w(q)
            } else {
                0real
            },
    )
}

/// `a` is `b` up to the tolerance of the solver on the scale of `c`.
pub open spec fn near(a: real, b: real, c: real) -> bool {
    size(a - b) * 100000000real <= 1real + size(c)
}

/// The derivatives of every block are what its own Jacobians make of its states and
/// inputs, plus `fx`.
pub open spec fn slopes_follow<F>(
    num: spec_fn(F) -> real,
    blocks: Seq<LinearBlock<F>>,
    fx: spec_fn(int, int) -> real,
    x: spec_fn(int) -> real,
    dx: spec_fn(int) -> real,
    v: spec_fn(int) -> real,
) -> bool {
    forall|i: int, r: int|
        #![trigger state_row(blocks, i, r)]
        0 <= i < blocks.len() && 0 <= r < blocks[i].nx ==> dx(state_row(blocks, i, r))
            == slope_by_state(num, blocks, i, r, x) + slope_by_input(num, blocks, i, r, v) + fx(
            i,
            r,
        )
}

/// The outputs of every block are what its own Jacobians make of its states and inputs,
/// plus `gw`; `given` is what does not depend on inputs.
pub open spec fn outputs_follow<F>(
    num: spec_fn(F) -> real,
    blocks: Seq<LinearBlock<F>>,
    gw: spec_fn(int, int) -> real,
    x: spec_fn(int) -> real,
    v: spec_fn(int) -> real,
    w: spec_fn(int) -> real,
    given: spec_fn(int) -> real,
) -> bool {
    forall|i: int, r: int|
        #![trigger output_row(blocks, i, r)]
        0 <= i < blocks.len() && 0 <= r < blocks[i].ny ==> {
            &&& given(output_row(blocks, i, r)) == output_by_state(num, blocks, i, r, x) + gw(i, r)
            &&& w(output_row(blocks, i, r)) == given(output_row(blocks, i, r)) + output_by_input(
                num,
                blocks,
                i,
                r,
                v,
            )
        }
}

/// Every input is what drives it plus the outputs that are joined to it, up to the
/// tolerance of the solver on the scale of what does not depend on inputs. Inputs that are
/// driven from `outside` take no outputs.
pub open spec fn inputs_follow<F>(
    blocks: Seq<LinearBlock<F>>,
    conns: Seq<ConnModel>,
    outside: spec_fn(int, int) -> bool,
    drive: spec_fn(int, int) -> real,
    v: spec_fn(int) -> real,
    w: spec_fn(int) -> real,
    given: spec_fn(int) -> real,
) -> bool {
    forall|b: int, d: int|
        #![trigger input_row(blocks, b, d)]
        0 <= b < blocks.len() && 0 <= d < blocks[b].nu ==> near(
            v(input_row(blocks, b, d)),
            drive(b, d) + joined_sum(blocks, conns, outside, b, d, w),
            drive(b, d) + joined_sum(blocks, conns, outside, b, d, given),
        )
}

/// States `x` with derivatives `dx`, inputs `v` and outputs `w` of all blocks that are in
/// balance, where `drive`, `fx` and `gw` act on inputs, derivatives and outputs.
pub open spec fn balanced<F>(
    num: spec_fn(F) -> real,
    blocks: Seq<LinearBlock<F>>,
    conns: Seq<ConnModel>,
    outside: spec_fn(int, int) -> bool,
    drive: spec_fn(int, int) -> real,
    fx: spec_fn(int, int) -> real,
    gw: spec_fn(int, int) -> real,
    x: spec_fn(int) -> real,
    dx: spec_fn(int) -> real,
    v: spec_fn(int) -> real,
    w: spec_fn(int) -> real,
    given: spec_fn(int) -> real,
) -> bool {
    &&& slopes_follow(num, blocks, fx, x, dx, v)
    &&& outputs_follow(num, blocks, gw, x, v, w, given)
    &&& inputs_follow(blocks, conns, outside, drive, v, w, given)
}

spec fn part_jac<F>(b: LinearBlock<F>, part: Part) -> Option<Jacobian<F>> {
    match part {
        Part::A => b.f_x,
        Part::B => b.f_u,
        Part::C => b.g_x,
        Part::D => b.g_u,
    }
}

proof fn lemma_part_sizes<F: Scalar>(blocks: Seq<LinearBlock<F>>, models: Seq<LocalModel<F>>)
    requires
        models_of(blocks, models),
    ensures
        row_sizes(models, Part::A) == state_sizes(blocks),
        col_sizes(models, Part::A) == state_sizes(blocks),
        row_sizes(models, Part::B) == state_sizes(blocks),
        col_sizes(models, Part::B) == input_sizes(blocks),
        row_sizes(models, Part::C) == output_sizes(blocks),
        col_sizes(models, Part::C) == state_sizes(blocks),
        row_sizes(models, Part::D) == output_sizes(blocks),
        col_sizes(models, Part::D) == input_sizes(blocks),
{
    assert forall|i: int| 0 <= i < blocks.len() implies #[trigger] models[i].nx == blocks[i].nx
        && models[i].nu == blocks[i].nu && models[i].ny == blocks[i].ny by {
        assert(blocks[i].models(models[i]));
    }
    assert(row_sizes(models, Part::A) =~= state_sizes(blocks));
    assert(col_sizes(models, Part::A) =~= state_sizes(blocks));
    assert(row_sizes(models, Part::B) =~= state_sizes(blocks));
    assert(col_sizes(models, Part::B) =~= input_sizes(blocks));
    assert(row_sizes(models, Part::C) =~= output_sizes(blocks));
    assert(col_sizes(models, Part::C) =~= state_sizes(blocks));
    assert(row_sizes(models, Part::D) =~= output_sizes(blocks));
    assert(col_sizes(models, Part::D) =~= input_sizes(blocks));
}

proof fn lemma_stacked_entry<F: Scalar>(
    num: spec_fn(F) -> real,
    blocks: Seq<LinearBlock<F>>,
    models: Seq<LocalModel<F>>,
    part: Part,
    out: Seq<F>,
    i: int,
    r: int,
    p: int,
)
    requires
        exact(num),
        models_of(blocks, models),
        stacked(models, part, out),
        0 <= i < blocks.len(),
        0 <= r < part_rows(models[i], part),
        0 <= p < offset(col_sizes(models, part), blocks.len() as int),
    ensures
        num(
            out[place(
                offset(col_sizes(models, part), blocks.len() as int),
                offset(row_sizes(models, part), i) + r,
                p,
            )],
        ) == own(
            num,
            part_jac(blocks[i], part),
            offset(col_sizes(models, part), i),
            part_cols(models[i], part) as int,
            r,
            p,
        ),
{
    let sizes = col_sizes(models, part);
    let n = blocks.len() as int;
    let (j, c) = lemma_row_owner(sizes, n, p);
    let v = out[stack_place(models, part, i, r, j, c)];
    assert(stack_entry(models, part, i, r, j, c, v));
    assert(blocks[i].models(models[i]));
    if i == j {
        assert(fitted_entry(part_jac(blocks[i], part), r, c, v));
    } else if offset(sizes, i) <= p < offset(sizes, i) + sizes[i] {
        lemma_row_unique(sizes, i, p - offset(sizes, i), j, c);
    }
}

proof fn lemma_row_product<F: Scalar>(
    num: spec_fn(F) -> real,
    a: Seq<F>,
    b: Seq<F>,
    k: int,
    cols: int,
    i: int,
    j: int,
    p: int,
    v: F,
)
    requires
        exact(num),
        row_product(a, b, k, cols, i, j, p, v),
    ensures
        num(v) == total(p, |q: int| num(a[place(k, i, q)]) * num(b[place(cols, q, j)])),
    decreases p,
{
    let f = |q: int| num(a[place(k, i, q)]) * num(b[place(cols, q, j)]);
    if p > 0 {
        let left = a[place(k, i, p - 1)];
        let right = b[place(cols, p - 1, j)];
        if nonzeros(left, false) && row_product(a, b, k, cols, i, j, p - 1, v) {
            lemma_row_product(num, a, b, k, cols, i, j, p - 1, v);
            let z = choose|z: F| #[trigger] zeros(z) && eqs(left, z, true);
            lemma_scales(num(left), 0real, num(right));
            assert(f(p - 1) == 0real);
        } else {
            let (s, q) = choose|s: F, q: F| #[trigger]
                adds(s, q, v) && muls(left, right, q) && row_product(a, b, k, cols, i, j, p - 1, s);
            lemma_row_product(num, a, b, k, cols, i, j, p - 1, s);
            assert(f(p - 1) == num(q));
        }
        assert(total(p, f) == total(p - 1, f) + f(p - 1));
    }
}

proof fn lemma_row_sum<F: Scalar>(
    num: spec_fn(F) -> real,
    sys: Seq<F>,
    z: Seq<F>,
    n: int,
    i: int,
    p: int,
    v: F,
)
    requires
        exact(num),
        row_sum(sys, z, n, i, p, v),
    ensures
        num(v) == total(p, |q: int| num(sys[place(n, i, q)]) * num(z[q])),
    decreases p,
{
    let f = |q: int| num(sys[place(n, i, q)]) * num(z[q]);
    if p > 0 {
        let (s, q) = choose|s: F, q: F| #[trigger]
            adds(s, q, v) && muls(sys[place(n, i, p - 1)], z[p - 1], q) && row_sum(
                sys,
                z,
                n,
                i,
                p - 1,
                s,
            );
        lemma_row_sum(num, sys, z, n, i, p - 1, s);
        assert(total(p, f) == total(p - 1, f) + f(p - 1));
    }
}

/// A row that passed the check is solved up to the tolerance.
proof fn lemma_row_near<F: Scalar>(
    num: spec_fn(F) -> real,
    sys: Seq<F>,
    z: Seq<F>,
    rhs: Seq<F>,
    n: int,
    i: int,
)
    requires
        exact(num),
        row_ok(sys, z, rhs, n, i, true),
    ensures
        near(
            total(n, |q: int| num(sys[place(n, i, q)]) * num(z[q])),
            num(rhs[i]),
            num(rhs[i]),
        ),
{
    let acc = choose|acc: F| #[trigger] row_check(sys, z, rhs, n, i, acc, true);
    lemma_row_sum(num, sys, z, n, i, n, acc);
    let b = rhs[i];
    assert(exceeds(acc, b, false));
    let (d, gap, tol, one, sz, s, bound) = choose|
        d: F,
        gap: F,
        tol: F,
        one: F,
        sz: F,
        s: F,
        bound: F,
    | #[trigger]
        exceeds_steps(acc, b, d, gap, tol, one, sz, s, bound, false);
    assert(ratios(1, RESIDUAL_TOLERANCE_INVERSE, tol));
    let k = 100000000real;
    assert(RESIDUAL_TOLERANCE_INVERSE as real == k);
    assert(num(tol) * k == 1real);
    lemma_reorders(num(tol), num(s), k);
    lemma_scales(num(tol) * k, 1real, num(s));
    assert(num(bound) * k == num(s));
}

/// Eliminating the inputs of one row: what is left of the row is how far its input is off
/// the outputs that it takes.
proof fn lemma_eliminates(
    nv: int,
    nw: int,
    l: spec_fn(int) -> real,
    d: spec_fn(int, int) -> real,
    sys: spec_fn(int) -> real,
    v: spec_fn(int) -> real,
    given: spec_fn(int) -> real,
    w: spec_fn(int) -> real,
    p: int,
)
    requires
        0 <= p < nv,
        forall|q: int|
            0 <= q < nv ==> #[trigger] sys(q) == (if q == p {
                1real
            } else {
                0real
            }) - total(nw, |s: int| l(s) * d(s, q)),
        forall|s: int|
            0 <= s < nw ==> #[trigger] w(s) == given(s) + total(nv, |q: int| d(s, q) * v(q)),
    ensures
        total(nv, |q: int| sys(q) * v(q)) - total(nw, |s: int| l(s) * given(s)) == v(p) - total(
            nw,
            |s: int| l(s) * w(s),
        ),
{
    let t = |q: int| total(nw, |s: int| l(s) * d(s, q));
    let unit = |q: int|
        if q == p {
            v(p)
        } else {
            0real
        };
    let tv = |q: int| t(q) * v(q);
    let left = |q: int| sys(q) * v(q);
    let split = |q: int| unit(q) - tv(q);
    assert forall|q: int| 0 <= q < nv implies #[trigger] left(q) == split(q) by {
        let e = if q == p {
            1real
        } else {
            0real
        };
        lemma_distributes(v(q), e, t(q));
        lemma_scales(sys(q), e - t(q), v(q));
        if q == p {
            lemma_scales(e, 1real, v(q));
        } else {
            lemma_scales(e, 0real, v(q));
        }
    }
    lemma_total_same(nv, left, split);
    lemma_total_plus(nv, unit, tv);
    lemma_total_single(nv, p, unit);
    let g = |q: int, s: int| (l(s) * d(s, q)) * v(q);
    let gq = |q: int| total(nw, |s: int| g(q, s));
    assert forall|q: int| 0 <= q < nv implies #[trigger] tv(q) == gq(q) by {
        let inner = |s: int| l(s) * d(s, q);
        lemma_total_scale(nw, v(q), inner);
        let a = |s: int| v(q) * inner(s);
        let b = |s: int| g(q, s);
        assert forall|s: int| 0 <= s < nw implies #[trigger] a(s) == b(s) by {
            lemma_reorders(v(q), inner(s), 1real);
        }
        lemma_total_same(nw, a, b);
        lemma_reorders(v(q), t(q), 1real);
    }
    lemma_total_same(nv, tv, gq);
    lemma_total_swap(nv, nw, g);
    let gs = |s: int| total(nv, |q: int| g(q, s));
    let lw = |s: int| l(s) * w(s);
    let lg = |s: int| l(s) * given(s);
    let diff = |s: int| lw(s) - lg(s);
    assert forall|s: int| 0 <= s < nw implies #[trigger] gs(s) == diff(s) by {
        let inner = |q: int| d(s, q) * v(q);
        lemma_total_scale(nv, l(s), inner);
        let a = |q: int| l(s) * inner(q);
        let b = |q: int| g(q, s);
        assert forall|q: int| 0 <= q < nv implies #[trigger] a(q) == b(q) by {
            lemma_reorders(l(s), d(s, q), v(q));
        }
        lemma_total_same(nv, a, b);
        lemma_distributes(l(s), w(s), given(s));
        lemma_total_same(nv, inner, |q: int| d(s, q) * v(q));
        assert(w(s) - given(s) == total(nv, inner));
    }
    lemma_total_same(nw, gs, diff);
    lemma_total_plus(nw, lw, lg);
    lemma_total_same(nv, |q: int| sys(q) * v(q), left);
}

proof fn lemma_joined_sum<F: Scalar>(
    num: spec_fn(F) -> real,
    blocks: Seq<LinearBlock<F>>,
    conns: Seq<ConnModel>,
    broken: Seq<(usize, usize)>,
    outside: spec_fn(int, int) -> bool,
    s: System<F>,
    b: int,
    d: int,
    w: spec_fn(int) -> real,
)
    requires
        exact(num),
        system_of(blocks, conns, broken, s),
        outside(b, d) == broken.contains((b as usize, d as usize)),
        wires_fit(blocks, conns),
        0 <= b < blocks.len(),
        0 <= d < blocks[b].nu,
    ensures
        joined_sum(blocks, conns, outside, b, d, w) == total(
            output_total(blocks),
            |q: int|
                num(s.l@[place(output_total(blocks), input_row(blocks, b, d), q)]) * w(q),
        ),
{
    law_interconnection(blocks, conns, broken, s);
    let nw = output_total(blocks);
    let f = |q: int|
        if row_joined(blocks, conns, q, b, d) && !outside(b, d) {
            w(q)
        } else {
            0real
        };
    let g = |q: int| num(s.l@[place(nw, input_row(blocks, b, d), q)]) * w(q);
    assert forall|q: int| 0 <= q < nw implies #[trigger] f(q) == g(q) by {
        let sizes = output_sizes(blocks);
        let (a, o) = lemma_row_owner(sizes, blocks.len() as int, q);
        assert(q == output_row(blocks, a, o));
        let l = s.l@[place(nw, input_row(blocks, b, d), output_row(blocks, a, o))];
        if row_joined(blocks, conns, q, b, d) {
            let (a2, o2) = choose|a2: int, o2: int| #[trigger]
                joined(blocks, conns, a2, o2, b, d) && 0 <= a2 < blocks.len() && 0 <= o2
                    < blocks[a2].ny && q == output_row(blocks, a2, o2);
            lemma_row_unique(sizes, a, o, a2, o2);
        }
        if joined(blocks, conns, a, o, b, d) {
            assert(row_joined(blocks, conns, q, b, d));
        }
        if ones(l) {
            lemma_scales(num(l), 1real, w(q));
        }
        if zeros(l) {
            lemma_scales(num(l), 0real, w(q));
        }
    }
    lemma_total_same(nw, f, g);
}

/// One input, whatever the column.
proof fn lemma_input_near<F: Scalar>(
    num: spec_fn(F) -> real,
    blocks: Seq<LinearBlock<F>>,
    conns: Seq<ConnModel>,
    broken: Seq<(usize, usize)>,
    outside: spec_fn(int, int) -> bool,
    models: Seq<LocalModel<F>>,
    ld: Seq<F>,
    s: System<F>,
    z: Seq<F>,
    rhs: Seq<F>,
    e: real,
    given: spec_fn(int) -> real,
    w: spec_fn(int) -> real,
    b: int,
    d: int,
)
    requires
        exact(num),
        system_with(blocks, conns, broken, models, ld, s),
        outside(b, d) == broken.contains((b as usize, d as usize)),
        wires_fit(blocks, conns),
        0 <= b < blocks.len(),
        0 <= d < blocks[b].nu,
        row_ok(s.sys@, z, rhs, input_total(blocks), input_row(blocks, b, d), true),
        num(rhs[input_row(blocks, b, d)]) == e + total(
            output_total(blocks),
            |q: int|
                num(s.l@[place(output_total(blocks), input_row(blocks, b, d), q)]) * given(q),
        ),
        forall|q: int|
            0 <= q < output_total(blocks) ==> #[trigger] w(q) == given(q) + total(
                input_total(blocks),
                |p: int| num(s.d_b@[place(input_total(blocks), q, p)]) * num(z[p]),
            ),
    ensures
        near(
            num(z[input_row(blocks, b, d)]),
            e + joined_sum(blocks, conns, outside, b, d, w),
            e + joined_sum(blocks, conns, outside, b, d, given),
        ),
{
    let (nv, nw) = (input_total(blocks), output_total(blocks));
    let p = input_row(blocks, b, d);
    lemma_row_bounds(input_sizes(blocks), b, d);
    lemma_row_near(num, s.sys@, z, rhs, nv, p);
    let l = |q: int| num(s.l@[place(nw, p, q)]);
    let dd = |q: int, u: int| num(s.d_b@[place(nv, q, u)]);
    let sys = |q: int| num(s.sys@[place(nv, p, q)]);
    let v = |q: int| num(z[q]);
    assert forall|q: int| 0 <= q < nv implies #[trigger] sys(q) == (if q == p {
        1real
    } else {
        0real
    }) - total(nw, |u: int| l(u) * dd(u, q)) by {
        lemma_place_bounds(nv, nv, p, q);
        let k = place(nv, p, q);
        assert(k / nv == p && k % nv == q) by (nonlinear_arith)
            requires
                k == p * nv + q,
                0 <= q < nv,
                0 <= p,
        ;
        assert(identity_entry_less(k / nv == k % nv, ld[k], s.sys@[k]));
        assert(row_product(s.l@, s.d_b@, nw, nv, p, q, nw, ld[place(nv, p, q)]));
        lemma_row_product(num, s.l@, s.d_b@, nw, nv, p, q, nw, ld[k]);
        lemma_total_same(
            nw,
            |u: int| num(s.l@[place(nw, p, u)]) * num(s.d_b@[place(nv, u, q)]),
            |u: int| l(u) * dd(u, q),
        );
    }
    assert forall|q: int| 0 <= q < nw implies #[trigger] w(q) == given(q) + total(
        nv,
        |u: int| dd(q, u) * v(u),
    ) by {
        lemma_total_same(
            nv,
            |u: int| num(s.d_b@[place(nv, q, u)]) * num(z[u]),
            |u: int| dd(q, u) * v(u),
        );
    }
    lemma_eliminates(nv, nw, l, dd, sys, v, given, w, p);
    lemma_joined_sum(num, blocks, conns, broken, outside, s, b, d, w);
    lemma_joined_sum(num, blocks, conns, broken, outside, s, b, d, given);
    lemma_total_same(
        nv,
        |q: int| num(s.sys@[place(nv, p, q)]) * num(z[q]),
        |q: int| sys(q) * v(q),
    );
    lemma_total_same(nw, |q: int| num(s.l@[place(nw, p, q)]) * w(q), |q: int| l(q) * w(q));
    lemma_total_same(
        nw,
        |q: int| num(s.l@[place(nw, p, q)]) * given(q),
        |q: int| l(q) * given(q),
    );
}

/// Zero, whatever the element.
pub open spec fn nothing() -> spec_fn(int) -> real {
    |p: int| 0real
}

/// Zero, whatever the block and its element.
pub open spec fn none_of() -> spec_fn(int, int) -> real {
    |i: int, r: int| 0real
}

/// One at `j`, zero elsewhere.
pub open spec fn unit_at(j: int) -> spec_fn(int) -> real {
    |p: int|
        if p == j {
            1real
        } else {
            0real
        }
}

/// Column `j` of a matrix with `cols` columns.
pub open spec fn column_of<F>(
    num: spec_fn(F) -> real,
    m: Seq<F>,
    cols: int,
    j: int,
) -> spec_fn(int) -> real {
    |p: int| num(m[place(cols, p, j)])
}

proof fn lemma_made_of_unit<F>(
    num: spec_fn(F) -> real,
    jac: Option<Jacobian<F>>,
    lo: int,
    len: int,
    r: int,
    n: int,
    j: int,
)
    requires
        0 <= j < n,
    ensures
        made_of(num, jac, lo, len, r, n, unit_at(j)) == own(num, jac, lo, len, r, j),
{
    let u = unit_at(j);
    let f = |p: int| own(num, jac, lo, len, r, p) * u(p);
    assert forall|i: int| 0 <= i < n && i != j implies #[trigger] f(i) == 0real by {
        lemma_reorders(u(i), own(num, jac, lo, len, r, i), 1real);
        lemma_scales(u(i), 0real, own(num, jac, lo, len, r, i));
    }
    lemma_total_single(n, j, f);
    lemma_reorders(u(j), own(num, jac, lo, len, r, j), 1real);
    lemma_scales(u(j), 1real, own(num, jac, lo, len, r, j));
}

proof fn lemma_made_of_nothing<F>(
    num: spec_fn(F) -> real,
    jac: Option<Jacobian<F>>,
    lo: int,
    len: int,
    r: int,
    n: int,
)
    ensures
        made_of(num, jac, lo, len, r, n, nothing()) == 0real,
{
    let f = |p: int| own(num, jac, lo, len, r, p) * nothing()(p);
    assert forall|i: int| 0 <= i < n implies #[trigger] f(i) == 0real by {
        lemma_reorders(nothing()(i), own(num, jac, lo, len, r, i), 1real);
        lemma_scales(nothing()(i), 0real, own(num, jac, lo, len, r, i));
    }
    lemma_total_zero(n, f);
}

/// What the inputs, column `c` of `gq`, make of element `r` of block `i`.
proof fn lemma_by_input<F: Scalar>(
    num: spec_fn(F) -> real,
    blocks: Seq<LinearBlock<F>>,
    models: Seq<LocalModel<F>>,
    part: Part,
    m: Seq<F>,
    gq: Seq<F>,
    cols: int,
    out: Seq<F>,
    i: int,
    r: int,
    c: int,
)
    requires
        exact(num),
        models_of(blocks, models),
        part is B || part is D,
        stacked(models, part, m),
        product(
            m,
            gq,
            offset(row_sizes(models, part), blocks.len() as int),
            input_total(blocks),
            cols,
            out,
        ),
        0 <= i < blocks.len(),
        0 <= r < part_rows(models[i], part),
        0 <= c < cols,
    ensures
        num(out[place(cols, offset(row_sizes(models, part), i) + r, c)]) == made_of(
            num,
            part_jac(blocks[i], part),
            input_row(blocks, i, 0),
            blocks[i].nu as int,
            r,
            input_total(blocks),
            column_of(num, gq, cols, c),
        ),
{
    lemma_part_sizes(blocks, models);
    let nv = input_total(blocks);
    let row = offset(row_sizes(models, part), i) + r;
    lemma_row_bounds(row_sizes(models, part), i, r);
    assert(row_product(m, gq, nv, cols, row, c, nv, out[place(cols, row, c)]));
    lemma_row_product(num, m, gq, nv, cols, row, c, nv, out[place(cols, row, c)]);
    let f = |q: int| num(m[place(nv, row, q)]) * num(gq[place(cols, q, c)]);
    let z = column_of(num, gq, cols, c);
    let g = |q: int|
        own(
            num,
            part_jac(blocks[i], part),
            input_row(blocks, i, 0),
            blocks[i].nu as int,
            r,
            q,
        ) * z(q);
    assert(blocks[i].models(models[i]));
    assert forall|q: int| 0 <= q < nv implies #[trigger] f(q) == g(q) by {
        lemma_stacked_entry(num, blocks, models, part, m, i, r, q);
    }
    lemma_total_same(nv, f, g);
}

/// The columns that belong to states: with one unit of state `j` and nothing driven, the
/// blocks and the signals between them are in balance, where the derivatives are column
/// `j` of `A` and the outputs column `j` of the full `C`.
proof fn lemma_state_column<F: Scalar, B: Backend<F>>(
    num: spec_fn(F) -> real,
    blocks: Seq<LinearBlock<F>>,
    conns: Seq<ConnModel>,
    broken: Seq<(usize, usize)>,
    outside: spec_fn(int, int) -> bool,
    assembled: Assembly<F>,
    j: int,
) -> (r: (spec_fn(int) -> real, spec_fn(int) -> real))
    requires
        exact(num),
        assembly_of::<F, B>(blocks, conns, broken, assembled),
        wires_fit(blocks, conns),
        input_total(blocks) <= usize::MAX,
        forall|b: int, d: int| #[trigger]
            outside(b, d) == broken.contains((b as usize, d as usize)),
        0 <= j < state_total(blocks),
    ensures
        balanced(
            num,
            blocks,
            conns,
            outside,
            none_of(),
            none_of(),
            none_of(),
            unit_at(j),
            column_of(num, assembled.a@, state_total(blocks), j),
            r.0,
            column_of(num, assembled.c_full@, state_total(blocks), j),
            r.1,
        ),
{
    let (nv, nw, nx) = (input_total(blocks), output_total(blocks), state_total(blocks));
    let n = blocks.len() as int;
    let s = assembled.system;
    let (models, ld) = choose|models: Seq<LocalModel<F>>, ld: Seq<F>| #[trigger]
        system_with(blocks, conns, broken, models, ld, s);
    let (glc, bg, dg) = choose|glc: Seq<F>, bg: Seq<F>, dg: Seq<F>| #[trigger]
        eliminated_with::<F, B>(blocks, assembled, glc, bg, dg);
    lemma_part_sizes(blocks, models);
    let v = column_of(num, glc, nx, j);
    let w = column_of(num, assembled.c_full@, nx, j);
    let given = column_of(num, s.c_b@, nx, j);
    let dx = column_of(num, assembled.a@, nx, j);
    assert forall|i: int, r: int| 0 <= i < n && 0 <= r < blocks[i].nx implies dx(
        #[trigger] state_row(blocks, i, r),
    ) == slope_by_state(num, blocks, i, r, unit_at(j)) + slope_by_input(num, blocks, i, r, v)
        + none_of()(i, r) by {
        assert(blocks[i].models(models[i]));
        let row = state_row(blocks, i, r);
        lemma_row_bounds(state_sizes(blocks), i, r);
        lemma_place_bounds(nx, nx, row, j);
        let k = place(nx, row, j);
        assert(adds(bg[k], s.a_b@[k], assembled.a@[k]));
        lemma_by_input(num, blocks, models, Part::B, s.b_b@, glc, nx, bg, i, r, j);
        lemma_stacked_entry(num, blocks, models, Part::A, s.a_b@, i, r, j);
        lemma_made_of_unit(
            num,
            blocks[i].f_x,
            state_row(blocks, i, 0),
            blocks[i].nx as int,
            r,
            nx,
            j,
        );
    }
    assert forall|i: int, r: int| 0 <= i < n && 0 <= r < blocks[i].ny implies given(
        output_row(blocks, i, r),
    ) == output_by_state(num, blocks, i, r, unit_at(j)) + none_of()(i, r) && w(
        #[trigger] output_row(blocks, i, r),
    ) == given(output_row(blocks, i, r)) + output_by_input(num, blocks, i, r, v) by {
        assert(blocks[i].models(models[i]));
        let row = output_row(blocks, i, r);
        lemma_row_bounds(output_sizes(blocks), i, r);
        lemma_place_bounds(nw, nx, row, j);
        let k = place(nx, row, j);
        assert(adds(dg[k], s.c_b@[k], assembled.c_full@[k]));
        lemma_by_input(num, blocks, models, Part::D, s.d_b@, glc, nx, dg, i, r, j);
        lemma_stacked_entry(num, blocks, models, Part::C, s.c_b@, i, r, j);
        lemma_made_of_unit(
            num,
            blocks[i].g_x,
            state_row(blocks, i, 0),
            blocks[i].nx as int,
            r,
            nx,
            j,
        );
    }
    assert forall|b: int, d: int| 0 <= b < n && 0 <= d < blocks[b].nu implies near(
        v(#[trigger] input_row(blocks, b, d)),
        none_of()(b, d) + joined_sum(blocks, conns, outside, b, d, w),
        none_of()(b, d) + joined_sum(blocks, conns, outside, b, d, given),
    ) by {
        let p = input_row(blocks, b, d);
        lemma_row_bounds(input_sizes(blocks), b, d);
        let z = column(glc, nv, nx, j);
        let rhs = column(s.lc@, nv, nx, j);
        assert(checked_solution::<F, B>(s.sys@, rhs, nv as usize, z));
        assert(row_ok(s.sys@, z, rhs, nv, p, true));
        assert(row_product(s.l@, s.c_b@, nw, nx, p, j, nw, s.lc@[place(nx, p, j)]));
        lemma_row_product(num, s.l@, s.c_b@, nw, nx, p, j, nw, s.lc@[place(nx, p, j)]);
        lemma_total_same(
            nw,
            |q: int| num(s.l@[place(nw, p, q)]) * num(s.c_b@[place(nx, q, j)]),
            |q: int| num(s.l@[place(nw, p, q)]) * given(q),
        );
        assert forall|q: int| 0 <= q < nw implies #[trigger] w(q) == given(q) + total(
            nv,
            |u: int| num(s.d_b@[place(nv, q, u)]) * num(z[u]),
        ) by {
            lemma_place_bounds(nw, nx, q, j);
            let k = place(nx, q, j);
            assert(adds(dg[k], s.c_b@[k], assembled.c_full@[k]));
            assert(row_product(s.d_b@, glc, nv, nx, q, j, nv, dg[k]));
            lemma_row_product(num, s.d_b@, glc, nv, nx, q, j, nv, dg[k]);
            lemma_total_same(
                nv,
                |u: int| num(s.d_b@[place(nv, q, u)]) * num(glc[place(nx, u, j)]),
                |u: int| num(s.d_b@[place(nv, q, u)]) * num(z[u]),
            );
        }
        lemma_input_near(
            num,
            blocks,
            conns,
            broken,
            outside,
            models,
            ld,
            s,
            z,
            rhs,
            0real,
            given,
            w,
            b,
            d,
        );
    }
    (v, given)
}

/// The columns that belong to what is driven from outside: with nothing in the states, the
/// blocks and the signals between them are in balance, where inputs are driven by column
/// `c` of `ev`, derivatives and outputs by column `c` of `ex` and `ew`, and the derivatives
/// and outputs are column `c` of `b_q` and `d_q`.
proof fn lemma_driven_column<F: Scalar, B: Backend<F>>(
    num: spec_fn(F) -> real,
    blocks: Seq<LinearBlock<F>>,
    conns: Seq<ConnModel>,
    broken: Seq<(usize, usize)>,
    outside: spec_fn(int, int) -> bool,
    assembled: Assembly<F>,
    ev: Seq<F>,
    ex: Seq<F>,
    ew: Seq<F>,
    n_q: int,
    b_q: Seq<F>,
    d_q: Seq<F>,
    drive: spec_fn(int, int) -> real,
    fx: spec_fn(int, int) -> real,
    gw: spec_fn(int, int) -> real,
    c: int,
) -> (r: (spec_fn(int) -> real, spec_fn(int) -> real))
    requires
        exact(num),
        assembly_of::<F, B>(blocks, conns, broken, assembled),
        driven::<F, B>(blocks, assembled, ev, ex, ew, n_q, b_q, d_q),
        wires_fit(blocks, conns),
        input_total(blocks) <= usize::MAX,
        forall|b: int, d: int| #[trigger]
            outside(b, d) == broken.contains((b as usize, d as usize)),
        0 <= c < n_q,
        ev.len() == 0 || ev.len() == input_total(blocks) * n_q,
        ex.len() == 0 || ex.len() == state_total(blocks) * n_q,
        ew.len() == 0 || ew.len() == output_total(blocks) * n_q,
        forall|b: int, d: int|
            #![trigger drive(b, d)]
            0 <= b < blocks.len() && 0 <= d < blocks[b].nu ==> drive(b, d) == if ev.len() == 0 {
                0real
            } else {
                num(ev[place(n_q, input_row(blocks, b, d), c)])
            },
        forall|i: int, r: int|
            #![trigger fx(i, r)]
            0 <= i < blocks.len() && 0 <= r < blocks[i].nx ==> fx(i, r) == if ex.len() == 0 {
                0real
            } else {
                num(ex[place(n_q, state_row(blocks, i, r), c)])
            },
        forall|i: int, r: int|
            #![trigger gw(i, r)]
            0 <= i < blocks.len() && 0 <= r < blocks[i].ny ==> gw(i, r) == if ew.len() == 0 {
                0real
            } else {
                num(ew[place(n_q, output_row(blocks, i, r), c)])
            },
    ensures
        balanced(
            num,
            blocks,
            conns,
            outside,
            drive,
            fx,
            gw,
            nothing(),
            column_of(num, b_q, n_q, c),
            r.0,
            column_of(num, d_q, n_q, c),
            r.1,
        ),
{
    let (nv, nw, nx) = (input_total(blocks), output_total(blocks), state_total(blocks));
    let n = blocks.len() as int;
    let s = assembled.system;
    let (models, ld) = choose|models: Seq<LocalModel<F>>, ld: Seq<F>| #[trigger]
        system_with(blocks, conns, broken, models, ld, s);
    let (rhs, gq, bg, dg) = choose|rhs: Seq<F>, gq: Seq<F>, bg: Seq<F>, dg: Seq<F>| #[trigger]
        driven_with::<F, B>(blocks, assembled, ev, ex, ew, n_q, rhs, gq, bg, dg, b_q, d_q);
    let le = choose|le: Seq<F>| #[trigger]
        injection_with(blocks, assembled, ev, ew, n_q, le, rhs);
    lemma_part_sizes(blocks, models);
    let v = column_of(num, gq, n_q, c);
    let w = column_of(num, d_q, n_q, c);
    let given = |q: int|
        if ew.len() == 0 {
            0real
        } else {
            num(ew[place(n_q, q, c)])
        };
    let dx = column_of(num, b_q, n_q, c);
    assert forall|i: int, r: int| 0 <= i < n && 0 <= r < blocks[i].nx implies dx(
        #[trigger] state_row(blocks, i, r),
    ) == slope_by_state(num, blocks, i, r, nothing()) + slope_by_input(num, blocks, i, r, v) + fx(
        i,
        r,
    ) by {
        assert(blocks[i].models(models[i]));
        let row = state_row(blocks, i, r);
        lemma_row_bounds(state_sizes(blocks), i, r);
        lemma_place_bounds(nx, n_q, row, c);
        let k = place(n_q, row, c);
        lemma_by_input(num, blocks, models, Part::B, s.b_b@, gq, n_q, bg, i, r, c);
        lemma_made_of_nothing(
            num,
            blocks[i].f_x,
            state_row(blocks, i, 0),
            blocks[i].nx as int,
            r,
            nx,
        );
        assert(fx(i, r) == fx(i, r));
        if ex.len() > 0 {
            assert(adds(bg[k], ex[k], b_q[k]));
        }
    }
    assert forall|i: int, r: int| 0 <= i < n && 0 <= r < blocks[i].ny implies given(
        output_row(blocks, i, r),
    ) == output_by_state(num, blocks, i, r, nothing()) + gw(i, r) && w(
        #[trigger] output_row(blocks, i, r),
    ) == given(output_row(blocks, i, r)) + output_by_input(num, blocks, i, r, v) by {
        assert(blocks[i].models(models[i]));
        let row = output_row(blocks, i, r);
        lemma_row_bounds(output_sizes(blocks), i, r);
        lemma_place_bounds(nw, n_q, row, c);
        let k = place(n_q, row, c);
        lemma_by_input(num, blocks, models, Part::D, s.d_b@, gq, n_q, dg, i, r, c);
        lemma_made_of_nothing(
            num,
            blocks[i].g_x,
            state_row(blocks, i, 0),
            blocks[i].nx as int,
            r,
            nx,
        );
        assert(gw(i, r) == gw(i, r));
        if ew.len() > 0 {
            assert(adds(dg[k], ew[k], d_q[k]));
        }
    }
    assert forall|b: int, d: int| 0 <= b < n && 0 <= d < blocks[b].nu implies near(
        v(#[trigger] input_row(blocks, b, d)),
        drive(b, d) + joined_sum(blocks, conns, outside, b, d, w),
        drive(b, d) + joined_sum(blocks, conns, outside, b, d, given),
    ) by {
        let p = input_row(blocks, b, d);
        lemma_row_bounds(input_sizes(blocks), b, d);
        let z = column(gq, nv, n_q, c);
        let right = column(rhs, nv, n_q, c);
        assert(checked_solution::<F, B>(s.sys@, right, nv as usize, z));
        assert(row_ok(s.sys@, z, right, nv, p, true));
        lemma_place_bounds(nv, n_q, p, c);
        let k = place(n_q, p, c);
        let lg = |q: int| num(s.l@[place(nw, p, q)]) * given(q);
        if ew.len() == 0 {
            assert(zeros(le[k]));
            assert forall|q: int| 0 <= q < nw implies #[trigger] lg(q) == 0real by {
                lemma_reorders(given(q), num(s.l@[place(nw, p, q)]), 1real);
                lemma_scales(given(q), 0real, num(s.l@[place(nw, p, q)]));
            }
            lemma_total_zero(nw, lg);
        } else {
            assert(row_product(s.l@, ew, nw, n_q, p, c, nw, le[k]));
            lemma_row_product(num, s.l@, ew, nw, n_q, p, c, nw, le[k]);
            lemma_total_same(
                nw,
                |q: int| num(s.l@[place(nw, p, q)]) * num(ew[place(n_q, q, c)]),
                lg,
            );
        }
        assert(num(le[k]) == total(nw, lg));
        assert(drive(b, d) == drive(b, d));
        if ev.len() > 0 {
            assert(adds(le[k], ev[k], rhs[k]));
        }
        assert(num(right[p]) == drive(b, d) + total(nw, lg));
        lemma_total_same(nw, lg, |q: int| num(s.l@[place(nw, p, q)]) * given(q));
        assert forall|q: int| 0 <= q < nw implies #[trigger] w(q) == given(q) + total(
            nv,
            |u: int| num(s.d_b@[place(nv, q, u)]) * num(z[u]),
        ) by {
            lemma_place_bounds(nw, n_q, q, c);
            let i = place(n_q, q, c);
            assert(row_product(s.d_b@, gq, nv, n_q, q, c, nv, dg[i]));
            lemma_row_product(num, s.d_b@, gq, nv, n_q, q, c, nv, dg[i]);
            lemma_total_same(
                nv,
                |u: int| num(s.d_b@[place(nv, q, u)]) * num(gq[place(n_q, u, c)]),
                |u: int| num(s.d_b@[place(nv, q, u)]) * num(z[u]),
            );
            if ew.len() > 0 {
                assert(adds(dg[i], ew[i], d_q[i]));
            }
        }
        lemma_input_near(
            num,
            blocks,
            conns,
            broken,
            outside,
            models,
            ld,
            s,
            z,
            right,
            drive(b, d),
            given,
            w,
            b,
            d,
        );
    }
    (v, given)
}

/// The outputs `y` are those of `w` that are asked for, and zero where none is.
pub open spec fn taps<F>(
    blocks: Seq<LinearBlock<F>>,
    out_rows: Seq<Option<(usize, usize)>>,
    w: spec_fn(int) -> real,
    y: spec_fn(int) -> real,
) -> bool {
    forall|k: int|
        #![trigger y(k)]
        0 <= k < out_rows.len() ==> y(k) == match out_rows[k] {
            Some(t) => w(output_row(blocks, t.0 as int, t.1 as int)),
            None => 0real,
        }
}

proof fn lemma_taps<F: Scalar>(
    num: spec_fn(F) -> real,
    blocks: Seq<LinearBlock<F>>,
    out_rows: Seq<Option<(usize, usize)>>,
    full: Seq<F>,
    n: int,
    out: Seq<F>,
    c: int,
)
    requires
        exact(num),
        tapped(blocks, out_rows, full, n, out),
        0 <= c < n,
    ensures
        taps(blocks, out_rows, column_of(num, full, n, c), column_of(num, out, n, c)),
{
    let y = column_of(num, out, n, c);
    assert forall|k: int| 0 <= k < out_rows.len() implies #[trigger] y(k) == match out_rows[k] {
        Some(t) => column_of(num, full, n, c)(output_row(blocks, t.0 as int, t.1 as int)),
        None => 0real,
    } by {
        assert(tapped_row(blocks, out_rows[k], full, n, k, out));
        let v = out[place(n, k, c)];
    }
}

/// Input `d` of block `b` is listed.
pub open spec fn listed(ports: Seq<(usize, usize)>, b: int, d: int) -> bool {
    exists|m: int| 0 <= m < ports.len() && (#[trigger] ports[m]).0 == b && ports[m].1 == d
}

/// Input `d` of block `b` is listed in some column: it is driven from outside.
pub open spec fn driven_from_outside(cols: Seq<Vec<(usize, usize)>>) -> spec_fn(
    int,
    int,
) -> bool {
    |b: int, d: int|
        exists|c: int| 0 <= c < cols.len() && listed((#[trigger] cols[c])@, b, d)
}

/// One where column `c` drives input `d` of block `b`, else zero.
pub open spec fn driven_by(ports: Seq<(usize, usize)>) -> spec_fn(int, int) -> real {
    |b: int, d: int|
        if listed(ports, b, d) {
            1real
        } else {
            0real
        }
}

/// The columns list inputs that their blocks have.
pub open spec fn ports_fit<F>(
    blocks: Seq<LinearBlock<F>>,
    cols: Seq<Vec<(usize, usize)>>,
) -> bool {
    forall|c: int, m: int|
        #![trigger cols[c]@[m]]
        0 <= c < cols.len() && 0 <= m < cols[c]@.len() ==> cols[c]@[m].0 < blocks.len()
            && cols[c]@[m].1 < blocks[cols[c]@[m].0 as int].nu
}

spec fn cut_at(broken: Seq<(usize, usize)>) -> spec_fn(int, int) -> bool {
    |b: int, d: int| broken.contains((b as usize, d as usize))
}

/// Balance depends on what is driven from outside only for inputs that there are.
proof fn lemma_outside_same<F>(
    num: spec_fn(F) -> real,
    blocks: Seq<LinearBlock<F>>,
    conns: Seq<ConnModel>,
    outside: spec_fn(int, int) -> bool,
    other: spec_fn(int, int) -> bool,
    drive: spec_fn(int, int) -> real,
    fx: spec_fn(int, int) -> real,
    gw: spec_fn(int, int) -> real,
    x: spec_fn(int) -> real,
    dx: spec_fn(int) -> real,
    v: spec_fn(int) -> real,
    w: spec_fn(int) -> real,
    given: spec_fn(int) -> real,
)
    requires
        balanced(num, blocks, conns, outside, drive, fx, gw, x, dx, v, w, given),
        forall|b: int, d: int|
            0 <= b < blocks.len() && 0 <= d < blocks[b].nu ==> #[trigger] outside(b, d) == other(
                b,
                d,
            ),
    ensures
        balanced(num, blocks, conns, other, drive, fx, gw, x, dx, v, w, given),
{
    assert forall|b: int, d: int| 0 <= b < blocks.len() && 0 <= d < blocks[b].nu implies near(
        v(#[trigger] input_row(blocks, b, d)),
        drive(b, d) + joined_sum(blocks, conns, other, b, d, w),
        drive(b, d) + joined_sum(blocks, conns, other, b, d, given),
    ) by {
        assert(outside(b, d) == other(b, d));
        let nw = output_total(blocks);
        lemma_total_same(
            nw,
            |q: int|
                if row_joined(blocks, conns, q, b, d) && !outside(b, d) {
                    w(q)
                } else {
                    0real
                },
            |q: int|
                if row_joined(blocks, conns, q, b, d) && !other(b, d) {
                    w(q)
                } else {
                    0real
                },
        );
        lemma_total_same(
            nw,
            |q: int|
                if row_joined(blocks, conns, q, b, d) && !outside(b, d) {
                    given(q)
                } else {
                    0real
                },
            |q: int|
                if row_joined(blocks, conns, q, b, d) && !other(b, d) {
                    given(q)
                } else {
                    0real
                },
        );
    }
}

proof fn lemma_cut_is_listed<F>(blocks: Seq<LinearBlock<F>>, cols: Seq<Vec<(usize, usize)>>, b: int, d: int)
    requires
        0 <= b < blocks.len(),
        0 <= d < blocks[b].nu,
        blocks.len() <= usize::MAX,
    ensures
        cut_at(all_pairs(cols))(b, d) == driven_from_outside(cols)(b, d),
{
    if cut_at(all_pairs(cols))(b, d) {
        let (c, m) = lemma_pair_owner(cols, (b as usize, d as usize));
        assert(cols[c]@[m].0 == b && cols[c]@[m].1 == d);
        assert(listed(cols[c]@, b, d));
    }
    if driven_from_outside(cols)(b, d) {
        let c = choose|c: int| 0 <= c < cols.len() && listed((#[trigger] cols[c])@, b, d);
        let ports = cols[c]@;
        let m = choose|m: int|
            0 <= m < ports.len() && (#[trigger] ports[m]).0 == b && ports[m].1 == d;
        lemma_all_pairs(cols, c, m);
        assert(cols[c]@[m] == (b as usize, d as usize));
    }
}

/// What `A` and `C` say: with one unit of state `j` and nothing driven from outside, every
/// block follows its own Jacobians and every input takes the outputs that are joined to
/// it, where the derivatives are column `j` of `A`, and column `j` of `C` holds the outputs
/// that are asked for.
pub proof fn law_state_columns<F: Scalar, B: Backend<F>>(
    num: spec_fn(F) -> real,
    blocks: Seq<LinearBlock<F>>,
    conns: Seq<ConnModel>,
    in_cols: Seq<Vec<(usize, usize)>>,
    out_rows: Seq<Option<(usize, usize)>>,
    g: GlobalModel<F>,
    j: int,
)
    requires
        exact(num),
        global_of::<F, B>(blocks, conns, in_cols, out_rows, g),
        wires_fit(blocks, conns),
        blocks.len() <= usize::MAX,
        input_total(blocks) <= usize::MAX,
        0 <= j < g.nx,
    ensures
        exists|v: spec_fn(int) -> real, w: spec_fn(int) -> real, given: spec_fn(int) -> real|
            #[trigger]
            balanced(
                num,
                blocks,
                conns,
                driven_from_outside(in_cols),
                none_of(),
                none_of(),
                none_of(),
                unit_at(j),
                column_of(num, g.a@, g.nx as int, j),
                v,
                w,
                given,
            ) && taps(blocks, out_rows, w, column_of(num, g.c@, g.nx as int, j)),
{
    let (p, ev, d) = choose|p: Assembly<F>, ev: Seq<F>, d: Seq<F>| #[trigger]
        global_with::<F, B>(blocks, conns, in_cols, out_rows, p, ev, d, g);
    let broken = all_pairs(in_cols);
    let (v, given) = lemma_state_column::<F, B>(num, blocks, conns, broken, cut_at(broken), p, j);
    let w = column_of(num, p.c_full@, g.nx as int, j);
    assert forall|b: int, d: int| 0 <= b < blocks.len() && 0 <= d < blocks[b].nu implies #[trigger] cut_at(
        broken,
    )(b, d) == driven_from_outside(in_cols)(b, d) by {
        lemma_cut_is_listed(blocks, in_cols, b, d);
    }
    lemma_outside_same(
        num,
        blocks,
        conns,
        cut_at(broken),
        driven_from_outside(in_cols),
        none_of(),
        none_of(),
        none_of(),
        unit_at(j),
        column_of(num, g.a@, g.nx as int, j),
        v,
        w,
        given,
    );
    lemma_taps(num, blocks, out_rows, p.c_full@, g.nx as int, g.c@, j);
}

/// What `B` and `D` say: with nothing in the states and one unit of input `c`, every block
/// follows its own Jacobians, every input that the column lists takes one, every input
/// that only others list takes nothing, and every other input takes the outputs that are
/// joined to it; the derivatives are column `c` of `B`, and column `c` of `D` holds the
/// outputs that are asked for.
pub proof fn law_input_columns<F: Scalar, B: Backend<F>>(
    num: spec_fn(F) -> real,
    blocks: Seq<LinearBlock<F>>,
    conns: Seq<ConnModel>,
    in_cols: Seq<Vec<(usize, usize)>>,
    out_rows: Seq<Option<(usize, usize)>>,
    g: GlobalModel<F>,
    c: int,
)
    requires
        exact(num),
        global_of::<F, B>(blocks, conns, in_cols, out_rows, g),
        wires_fit(blocks, conns),
        ports_fit(blocks, in_cols),
        blocks.len() <= usize::MAX,
        input_total(blocks) <= usize::MAX,
        0 <= c < g.nu,
    ensures
        exists|v: spec_fn(int) -> real, w: spec_fn(int) -> real, given: spec_fn(int) -> real|
            #[trigger]
            balanced(
                num,
                blocks,
                conns,
                driven_from_outside(in_cols),
                driven_by(in_cols[c]@),
                none_of(),
                none_of(),
                nothing(),
                column_of(num, g.b@, g.nu as int, c),
                v,
                w,
                given,
            ) && taps(blocks, out_rows, w, column_of(num, g.d@, g.nu as int, c)),
{
    let (p, ev, d_full) = choose|p: Assembly<F>, ev: Seq<F>, d: Seq<F>| #[trigger]
        global_with::<F, B>(blocks, conns, in_cols, out_rows, p, ev, d, g);
    let broken = all_pairs(in_cols);
    let n = in_cols.len() as int;
    let drive = driven_by(in_cols[c]@);
    let ports = in_cols[c]@;
    let nv = input_total(blocks);
    assert forall|b: int, d: int| 0 <= b < blocks.len() && 0 <= d < blocks[b].nu implies #[trigger] drive(
        b,
        d,
    ) == if ev.len() == 0 {
        0real
    } else {
        num(ev[place(n, input_row(blocks, b, d), c)])
    } by {
        let row = input_row(blocks, b, d);
        lemma_row_bounds(input_sizes(blocks), b, d);
        lemma_place_bounds(nv, n, row, c);
        let k = ports.len() as int;
        let e = ev[place(n, row, c)];
        if listed(ports, b, d) {
            let m = choose|m: int|
                0 <= m < ports.len() && (#[trigger] ports[m]).0 == b && ports[m].1 == d;
            assert(offset(input_sizes(blocks), ports[m].0 as int) + ports[m].1 == row);
            assert(enters(blocks, ports, k, row));
        }
        if enters(blocks, ports, k, row) {
            let m = choose|m: int|
                0 <= m < k && #[trigger] offset(input_sizes(blocks), ports[m].0 as int)
                    + ports[m].1 == row;
            assert(in_cols[c]@[m].1 < blocks[in_cols[c]@[m].0 as int].nu);
            lemma_row_unique(
                input_sizes(blocks),
                b,
                d,
                ports[m].0 as int,
                ports[m].1 as int,
            );
            assert(listed(ports, b, d));
        }
    }
    let (v, given) = lemma_driven_column::<F, B>(
        num,
        blocks,
        conns,
        broken,
        cut_at(broken),
        p,
        ev,
        Seq::empty(),
        Seq::empty(),
        n,
        g.b@,
        d_full,
        drive,
        none_of(),
        none_of(),
        c,
    );
    let w = column_of(num, d_full, n, c);
    assert forall|b: int, d: int| 0 <= b < blocks.len() && 0 <= d < blocks[b].nu implies #[trigger] cut_at(
        broken,
    )(b, d) == driven_from_outside(in_cols)(b, d) by {
        lemma_cut_is_listed(blocks, in_cols, b, d);
    }
    lemma_outside_same(
        num,
        blocks,
        conns,
        cut_at(broken),
        driven_from_outside(in_cols),
        drive,
        none_of(),
        none_of(),
        nothing(),
        column_of(num, g.b@, n, c),
        v,
        w,
        given,
    );
    lemma_taps(num, blocks, out_rows, d_full, n, g.d@, c);
}

/// No input is driven from outside.
pub open spec fn nowhere() -> spec_fn(int, int) -> bool {
    |b: int, d: int| false
}

/// What the blocks tell of the named parameter of block `owner`: that block by `told`, the
/// others nothing.
pub open spec fn acts<F>(
    num: spec_fn(F) -> real,
    params: Seq<ParamColumn<F>>,
    owner: int,
    name: Seq<char>,
) -> spec_fn(int, int) -> real {
    |i: int, r: int|
        if i == owner {
            match told(params, name, r) {
                Some(u) => num(u),
                None => 0real,
            }
        } else {
            0real
        }
}

/// With one unit of state `j`, the derivatives `dx` and the outputs `w` are in balance.
pub open spec fn state_balanced<F>(
    num: spec_fn(F) -> real,
    blocks: Seq<LinearBlock<F>>,
    conns: Seq<ConnModel>,
    j: int,
    dx: spec_fn(int) -> real,
    w: spec_fn(int) -> real,
) -> bool {
    exists|v: spec_fn(int) -> real, given: spec_fn(int) -> real| #[trigger]
        balanced(
            num,
            blocks,
            conns,
            nowhere(),
            none_of(),
            none_of(),
            none_of(),
            unit_at(j),
            dx,
            v,
            w,
            given,
        )
}

/// With one unit of the parameter, the derivatives `dx` and the outputs `w` are in balance.
pub open spec fn param_balanced<F>(
    num: spec_fn(F) -> real,
    blocks: Seq<LinearBlock<F>>,
    conns: Seq<ConnModel>,
    owner: int,
    name: Seq<char>,
    dx: spec_fn(int) -> real,
    w: spec_fn(int) -> real,
) -> bool {
    exists|v: spec_fn(int) -> real, given: spec_fn(int) -> real| #[trigger]
        balanced(
            num,
            blocks,
            conns,
            nowhere(),
            none_of(),
            acts(num, blocks[owner].f_params@, owner, name),
            acts(num, blocks[owner].g_params@, owner, name),
            nothing(),
            dx,
            v,
            w,
            given,
        )
}

/// What is tapped of outputs.
pub open spec fn tap_of<F>(
    blocks: Seq<LinearBlock<F>>,
    tap: Option<(usize, usize)>,
    w: spec_fn(int) -> real,
) -> real {
    match tap {
        Some(t) => w(output_row(blocks, t.0 as int, t.1 as int)),
        None => 0real,
    }
}

/// The state `x` keeps all derivatives at zero against one unit of the parameter, and `y`
/// are the outputs that are asked for: by the derivatives `a` and outputs `cf` that states
/// make, column by column, and the derivatives `bp` and outputs `dp` that the parameter
/// makes.
pub open spec fn holds_steady<F>(
    num: spec_fn(F) -> real,
    blocks: Seq<LinearBlock<F>>,
    conns: Seq<ConnModel>,
    owner: int,
    name: Seq<char>,
    out_rows: Seq<Option<(usize, usize)>>,
    a: Seq<F>,
    cf: Seq<F>,
    bp: spec_fn(int) -> real,
    dp: spec_fn(int) -> real,
    x: spec_fn(int) -> real,
    y: spec_fn(int) -> real,
) -> bool {
    let nx = state_total(blocks);
    &&& forall|j: int|
        #![trigger column_of(num, a, nx, j)]
        0 <= j < nx ==> state_balanced(
            num,
            blocks,
            conns,
            j,
            column_of(num, a, nx, j),
            column_of(num, cf, nx, j),
        )
    &&& param_balanced(num, blocks, conns, owner, name, bp, dp)
    &&& forall|p: int|
        #![trigger bp(p)]
        0 <= p < nx ==> near(
            total(nx, |j: int| column_of(num, a, nx, j)(p) * x(j)),
            -bp(p),
            -bp(p),
        )
    &&& forall|k: int|
        #![trigger y(k)]
        0 <= k < out_rows.len() ==> y(k) == total(
            nx,
            |j: int| tap_of(blocks, out_rows[k], column_of(num, cf, nx, j)) * x(j),
        ) + tap_of(blocks, out_rows[k], dp)
}

proof fn lemma_never_cut(b: int, d: int)
    ensures
        nowhere()(b, d) == Seq::<(usize, usize)>::empty().contains((b as usize, d as usize)),
{
}

proof fn lemma_told_num<F: Scalar>(num: spec_fn(F) -> real, t: Option<F>, v: F)
    requires
        exact(num),
        as_told(t, v),
    ensures
        num(v) == match t {
            Some(u) => num(u),
            None => 0real,
        },
{
}

/// What the steady-state sensitivity says: column `c` of the answer holds the outputs that
/// are asked for, per unit of parameter `c`, when the states move so that all derivatives
/// stay at zero. States act by the blocks' own Jacobians, and the parameter by what its
/// block tells of it, through the outputs that are joined to inputs.
pub proof fn law_sensitivity_holds_steady<F: Scalar, B: Backend<F>>(
    num: spec_fn(F) -> real,
    blocks: Seq<LinearBlock<F>>,
    conns: Seq<ConnModel>,
    params: Seq<(usize, String)>,
    out_rows: Seq<Option<(usize, usize)>>,
    out: Seq<F>,
    c: int,
)
    requires
        exact(num),
        sensitivity_of::<F, B>(blocks, conns, params, out_rows, out),
        wires_fit(blocks, conns),
        input_total(blocks) <= usize::MAX,
        state_total(blocks) <= usize::MAX,
        0 <= c < params.len(),
        params[c].0 < blocks.len(),
    ensures
        exists|
            a: Seq<F>,
            cf: Seq<F>,
            bp: spec_fn(int) -> real,
            dp: spec_fn(int) -> real,
            x: spec_fn(int) -> real,
        | #[trigger]
            holds_steady(
                num,
                blocks,
                conns,
                params[c].0 as int,
                params[c].1@,
                out_rows,
                a,
                cf,
                bp,
                dp,
                x,
                column_of(num, out, params.len() as int, c),
            ),
{
    let n = params.len() as int;
    let (nv, nw, nx) = (input_total(blocks), output_total(blocks), state_total(blocks));
    lemma_offset_monotone(state_sizes(blocks), 0, blocks.len() as int);
    let (p, ex, ew, b_p, d_full) = choose|
        p: Assembly<F>,
        ex: Seq<F>,
        ew: Seq<F>,
        b_p: Seq<F>,
        d_full: Seq<F>,
    | #[trigger]
        param_system::<F, B>(blocks, conns, params, p, ex, ew, b_p, d_full) && response::<F, B>(
            blocks,
            out_rows,
            p,
            b_p,
            d_full,
            n,
            out,
        );
    let (cm, dm, dxdp, cx) = choose|cm: Seq<F>, dm: Seq<F>, dxdp: Seq<F>, cx: Seq<F>| #[trigger]
        response_with::<F, B>(blocks, out_rows, p, b_p, d_full, n, cm, dm, dxdp, cx, out);
    let broken = Seq::<(usize, usize)>::empty();
    let (owner, name) = (params[c].0 as int, params[c].1@);
    let x = column_of(num, dxdp, n, c);
    let y = column_of(num, out, n, c);
    let bp = column_of(num, b_p, n, c);
    let dp = column_of(num, d_full, n, c);
    let (a, cf) = (p.a@, p.c_full@);
    assert forall|b: int, d: int| #[trigger]
        nowhere()(b, d) == broken.contains((b as usize, d as usize)) by {
        lemma_never_cut(b, d);
    }
    assert forall|j: int| 0 <= j < nx implies state_balanced(
        num,
        blocks,
        conns,
        j,
        #[trigger] column_of(num, a, nx, j),
        column_of(num, cf, nx, j),
    ) by {
        let (v, given) = lemma_state_column::<F, B>(
            num,
            blocks,
            conns,
            broken,
            nowhere(),
            p,
            j,
        );
    }
    law_parameters_act_on_their_block(blocks, params, ex, ew);
    let fx = acts(num, blocks[owner].f_params@, owner, name);
    let gw = acts(num, blocks[owner].g_params@, owner, name);
    assert forall|i: int, r: int|
        #![trigger fx(i, r)]
        0 <= i < blocks.len() && 0 <= r < blocks[i].nx implies fx(i, r) == if ex.len() == 0 {
        0real
    } else {
        num(ex[place(n, state_row(blocks, i, r), c)])
    } by {
        lemma_row_bounds(state_sizes(blocks), i, r);
        lemma_place_bounds(nx, n, state_row(blocks, i, r), c);
        let v = ex[place(n, state_row(blocks, i, r), c)];
        let t = if i == owner {
            told(blocks[i].f_params@, name, r)
        } else {
            None
        };
        assert(as_told(t, v));
        lemma_told_num(num, t, v);
    }
    assert forall|i: int, r: int|
        #![trigger gw(i, r)]
        0 <= i < blocks.len() && 0 <= r < blocks[i].ny implies gw(i, r) == if ew.len() == 0 {
        0real
    } else {
        num(ew[place(n, output_row(blocks, i, r), c)])
    } by {
        lemma_row_bounds(output_sizes(blocks), i, r);
        lemma_place_bounds(nw, n, output_row(blocks, i, r), c);
        let v = ew[place(n, output_row(blocks, i, r), c)];
        let t = if i == owner {
            told(blocks[i].g_params@, name, r)
        } else {
            None
        };
        assert(as_told(t, v));
        lemma_told_num(num, t, v);
    }
    let (v, given) = lemma_driven_column::<F, B>(
        num,
        blocks,
        conns,
        broken,
        nowhere(),
        p,
        Seq::empty(),
        ex,
        ew,
        n,
        b_p,
        d_full,
        none_of(),
        fx,
        gw,
        c,
    );
    assert(param_balanced(num, blocks, conns, owner, name, bp, dp));
    lemma_driven_sizes::<F, B>(
        blocks,
        p,
        Seq::empty(),
        ex,
        ew,
        n,
        b_p,
        d_full,
    );
    assert forall|q: int| 0 <= q < nx implies near(
        total(nx, |j: int| column_of(num, a, nx, j)(q) * x(j)),
        -#[trigger] bp(q),
        -bp(q),
    ) by {
        let rhs = choose|rhs: Seq<F>| #[trigger]
            negations(b_p, rhs) && solves_columns::<F, B>(a, rhs, nx as usize, n, dxdp);
        let z = column(dxdp, nx, n, c);
        let right = column(rhs, nx, n, c);
        assert(checked_solution::<F, B>(a, right, nx as usize, z));
        assert(row_ok(a, z, right, nx, q, true));
        lemma_row_near(num, a, z, right, nx, q);
        lemma_place_bounds(nx, n, q, c);
        assert(negs(b_p[place(n, q, c)], rhs[place(n, q, c)]));
        lemma_total_same(
            nx,
            |j: int| num(a[place(nx, q, j)]) * num(z[j]),
            |j: int| column_of(num, a, nx, j)(q) * x(j),
        );
    }
    lemma_taps(num, blocks, out_rows, d_full, n, dm, c);
    assert forall|k: int| 0 <= k < out_rows.len() implies #[trigger] y(k) == total(
        nx,
        |j: int| tap_of(blocks, out_rows[k], column_of(num, cf, nx, j)) * x(j),
    ) + tap_of(blocks, out_rows[k], dp) by {
        lemma_place_bounds(out_rows.len() as int, n, k, c);
        let i = place(n, k, c);
        assert(adds(cx[i], dm[i], out[i]));
        assert(row_product(cm, dxdp, nx, n, k, c, nx, cx[i]));
        lemma_row_product(num, cm, dxdp, nx, n, k, c, nx, cx[i]);
        let f = |j: int| num(cm[place(nx, k, j)]) * num(dxdp[place(n, j, c)]);
        let g = |j: int| tap_of(blocks, out_rows[k], column_of(num, cf, nx, j)) * x(j);
        assert forall|j: int| 0 <= j < nx implies #[trigger] f(j) == g(j) by {
            lemma_taps(num, blocks, out_rows, cf, nx, cm, j);
            assert(column_of(num, cm, nx, j)(k) == tap_of(
                blocks,
                out_rows[k],
                column_of(num, cf, nx, j),
            ));
        }
        lemma_total_same(nx, f, g);
        assert(column_of(num, dm, n, c)(k) == tap_of(blocks, out_rows[k], dp));
    }
    assert(holds_steady(num, blocks, conns, owner, name, out_rows, a, cf, bp, dp, x, y));
}

} // verus!
