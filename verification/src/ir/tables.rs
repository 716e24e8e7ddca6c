//! Laws of values, where arithmetic is exact: tables are piecewise linear, and choices go
//! by whether a number is zero.

use vstd::prelude::*;

use crate::algebra::{lemma_cancels, lemma_reorders, lemma_scales};
use crate::exact::exact;
use crate::ir::eval::{held, lerp_steps, op_value, segment_value, stores, table_value, EvalCtx};
use crate::ir::schema::{Op, Region, Write};
use crate::optim::colloc::cubic::ascends;
use crate::scalar::{eqs, les, nonzeros, zeros, Scalar};

verus! {

/// `y` is the value at `x` on the line through points `k` and `k + 1` of the table, which
/// are the ones next to `x`; the first and the last line go on beyond the table.
pub open spec fn on_segment<F>(
    num: spec_fn(F) -> real,
    points: Seq<F>,
    values: Seq<F>,
    x: real,
    k: int,
    y: real,
) -> bool {
    let (a, b) = (num(values[k]), num(values[k + 1]));
    &&& 0 <= k < points.len() - 1
    &&& k == 0 || num(points[k]) <= x
    &&& k == points.len() - 2 || x <= num(points[k + 1])
    &&& (y - a) * (num(points[k + 1]) - num(points[k])) == (b - a) * (x - num(points[k]))
}

proof fn lemma_segment<F: Scalar>(
    num: spec_fn(F) -> real,
    x: F,
    points: Seq<F>,
    values: Seq<F>,
    hits: Seq<bool>,
    k: int,
    raw: F,
)
    requires
        exact(num),
        points.len() >= 2,
        ascends(num, points),
        segment_value(x, points, values, hits, k, raw),
    ensures
        on_segment(num, points, values, num(x), k, num(raw)),
        forall|i: int|
            #![trigger points[i]]
            0 <= i < points.len() && num(points[i]) == num(x) ==> num(raw) == num(values[i]),
{
    let n = points.len() - 1;
    let (x0, x1, y0, y1) = (points[k], points[k + 1], values[k], values[k + 1]);
    let (dx, span, t, dy, rise) = choose|dx: F, span: F, t: F, dy: F, rise: F| #[trigger]
        lerp_steps(x, x0, x1, y0, y1, dx, span, t, dy, rise, raw);
    assert(num(x0) < num(x1));
    let (h, d, u) = (num(span), num(dy), num(t));
    assert(u * h == num(dx));
    lemma_reorders(u, d, h);
    lemma_reorders(d, u, h);
    lemma_scales(u * h, num(dx), d);
    lemma_reorders(d, u * h, 1real);
    lemma_reorders(d, num(dx), 1real);
    lemma_scales(num(raw) - num(y0), num(rise), h);
    assert((num(raw) - num(y0)) * h == d * num(dx));
    if k > 0 {
        assert(hits[k]);
        assert(les(points[k], x, hits[k]));
    }
    if k < n - 1 {
        assert(!hits[k + 1]);
        assert(les(points[k + 1], x, hits[k + 1]));
    }
    assert forall|i: int|
        #![trigger points[i]]
        0 <= i < points.len() && num(points[i]) == num(x) implies num(raw) == num(values[i]) by {
        if i < k {
            assert(num(points[i]) < num(points[k]));
        } else if i > k + 1 {
            assert(num(points[k + 1]) < num(points[i]));
        } else if i == k {
            lemma_reorders(h, u, 1real);
            lemma_reorders(h, 0real, 1real);
            lemma_scales(0real, 0real, h);
            lemma_cancels(h, u, 0real);
            lemma_scales(u, 0real, d);
        } else {
            lemma_reorders(h, u, 1real);
            lemma_cancels(h, u, 1real);
            lemma_scales(u, 1real, d);
        }
    }
}

/// A table with ascending breakpoints is piecewise linear through its points. Beyond them
/// it holds its first and its last value, if asked, and else goes on.
pub proof fn law_table_is_piecewise_linear<F: Scalar>(
    num: spec_fn(F) -> real,
    x: F,
    points: Seq<F>,
    values: Seq<F>,
    clamp: bool,
    y: F,
)
    requires
        exact(num),
        points.len() >= 2,
        values.len() >= points.len(),
        ascends(num, points),
        table_value(x, points, values, clamp, y),
    ensures
        clamp && num(x) > num(points.last()) ==> num(y) == num(values[points.len() - 1]),
        clamp && num(x) < num(points[0]) ==> num(y) == num(values[0]),
        !clamp || num(points[0]) <= num(x) <= num(points.last()) ==> exists|k: int| #[trigger]
            on_segment(num, points, values, num(x), k, num(y)),
        forall|i: int|
            #![trigger points[i]]
            0 <= i < points.len() && num(points[i]) == num(x) ==> num(y) == num(values[i]),
{
    let (hits, k, raw) = choose|hits: Seq<bool>, k: int, raw: F| #[trigger]
        segment_value(x, points, values, hits, k, raw) && (if clamp {
            exists|above: bool, below: bool| #[trigger]
                held(x, points, values, above, below, raw, y)
        } else {
            y == raw
        });
    lemma_segment(num, x, points, values, hits, k, raw);
    let last = points.len() - 1;
    assert(num(points[0]) < num(points[last]));
    if clamp {
        let (above, below) = choose|above: bool, below: bool| #[trigger]
            held(x, points, values, above, below, raw, y);
        assert forall|i: int|
            #![trigger points[i]]
            0 <= i < points.len() && num(points[i]) == num(x) implies num(y) == num(
            values[i],
        ) by {
            if i < last {
                assert(num(points[i]) < num(points[last]));
            }
            if i > 0 {
                assert(num(points[0]) < num(points[i]));
            }
        }
    }
}

/// A choice takes its first branch exactly if the condition is not zero.
pub proof fn law_choice_by_condition<F: Scalar>(
    num: spec_fn(F) -> real,
    op: Op<F>,
    ctx: EvalCtx<F>,
    vals: Seq<F>,
    v: F,
)
    requires
        exact(num),
        op is Select,
        op_value(op, ctx, vals, v),
    ensures
        num(vals[op->Select_c.0 as int]) != 0real ==> v == vals[op->Select_t.0 as int],
        num(vals[op->Select_c.0 as int]) == 0real ==> v == vals[op->Select_e.0 as int],
{
    let c = vals[op->Select_c.0 as int];
    let r = choose|r: bool| #[trigger]
        nonzeros(c, r) && v == if r {
            vals[op->Select_t.0 as int]
        } else {
            vals[op->Select_e.0 as int]
        };
    let z = choose|z: F| #[trigger] zeros(z) && eqs(c, z, !r);
}

/// What a region stores, in the order of its writes, are the values of the nodes that the
/// writes name.
pub proof fn law_region_stores_sources<F: Scalar>(region: Region<F>, vals: Seq<F>, out: Seq<F>)
    requires
        stores(region, vals, out),
    ensures
        out.len() == region.writes@.len(),
        forall|k: int|
            #![trigger out[k]]
            0 <= k < out.len() ==> match region.writes@[k] {
                Write::Output { src, .. } => out[k] == vals[src.0 as int],
                Write::StateDeriv { src, .. } => out[k] == vals[src.0 as int],
                Write::StateWrite { src, .. } => out[k] == vals[src.0 as int],
                Write::MemoryWrite { src, .. } => out[k] == vals[src.0 as int],
            },
{
}

} // verus!
