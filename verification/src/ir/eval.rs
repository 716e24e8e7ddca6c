//! Reference interpreter for IR regions.
//!
//! It is the semantic ground truth: any other way of running a region has to
//! agree with it. It favours plainness over speed.

use vstd::prelude::*;

use crate::ir::schema::{NodeId, Op, ReduceKind, Region, Write};
use crate::scalar::{
    adds, divs, fuses, les, lts, muls, nonzero, nonzeros, subs, zeros, Scalar,
};

verus! {

/// Environment of one region call: inputs by port, memory by slot, parameters
/// and state by index.
pub struct EvalCtx<'a, F> {
    pub inputs: &'a [&'a [F]],
    pub state: &'a [F],
    pub memory: &'a [&'a [F]],
    pub params: &'a [F],
    pub t: F,
}

/// Why a region cannot be evaluated.
#[derive(Debug, Clone, Copy, PartialEq, Eq, Structural)]
pub enum EvalError {
    /// The region calls an opaque routine.
    ExternCall,
}

/// The node whose value a write stores.
pub open spec fn write_src(w: Write) -> NodeId {
    match w {
        Write::Output { src, .. } => src,
        Write::StateDeriv { src, .. } => src,
        Write::StateWrite { src, .. } => src,
        Write::MemoryWrite { src, .. } => src,
    }
}

/// Every node of the list precedes node `i`.
pub open spec fn nodes_before(nodes: Seq<NodeId>, i: int) -> bool {
    forall|k: int| 0 <= k < nodes.len() ==> (#[trigger] nodes[k]).0 < i
}

/// The leading `n` nodes of the list precede node `i`.
pub open spec fn leading_before(nodes: Seq<NodeId>, n: int, i: int) -> bool {
    forall|k: int| 0 <= k < n ==> (#[trigger] nodes[k]).0 < i
}

/// The smaller of two lengths.
pub open spec fn shorter(a: nat, b: nat) -> nat {
    if a <= b {
        a
    } else {
        b
    }
}

/// Op `i` of a region reads only what the environment and the earlier ops hold.
pub open spec fn op_in_range<F>(op: Op<F>, i: int, ctx: EvalCtx<F>) -> bool {
    match op {
        Op::Const(_) => true,
        Op::Time => true,
        Op::Input { port, elem } => port < ctx.inputs@.len() && elem
            < ctx.inputs@[port as int]@.len(),
        Op::Param { id } => id.0 < ctx.params@.len(),
        Op::State { id } => id.0 < ctx.state@.len(),
        Op::Memory { slot, offset } => slot.0 < ctx.memory@.len() && offset
            < ctx.memory@[slot.0 as int]@.len(),
        Op::Binary { op: _, a, b } => a.0 < i && b.0 < i,
        Op::Unary { op: _, a } => a.0 < i,
        Op::Cmp { op: _, a, b } => a.0 < i && b.0 < i,
        Op::Select { c, t, e } => c.0 < i && t.0 < i && e.0 < i,
        Op::Fma { a, b, c } => a.0 < i && b.0 < i && c.0 < i,
        Op::Reduce { op: _, args } => nodes_before(args@, i),
        Op::Dot { a, b } => {
            let n = shorter(a@.len(), b@.len()) as int;
            leading_before(a@, n, i) && leading_before(b@, n, i)
        },
        Op::Lut1d { input, points, values, clamp: _ } => input.0 < i && (points@.len() >= 2
            ==> values@.len() >= points@.len()),
        Op::Call { .. } => true,
    }
}

/// No op before position `n` calls an opaque routine.
pub open spec fn calls_nothing<F>(ops: Seq<Op<F>>, n: int) -> bool {
    forall|k: int| 0 <= k < n ==> !(#[trigger] ops[k] is Call)
}

/// The region can run in `ctx`: up to the first opaque call every read is in
/// range, and without one so is the source of every write.
pub open spec fn runnable<F>(region: Region<F>, ctx: EvalCtx<F>) -> bool {
    let ops = region.ops@;
    &&& forall|i: int|
        0 <= i < ops.len() && calls_nothing(ops, i) ==> op_in_range(#[trigger] ops[i], i, ctx)
    &&& calls_nothing(ops, ops.len() as int) ==> forall|k: int|
        0 <= k < region.writes@.len() ==> write_src(#[trigger] region.writes@[k]).0 < ops.len()
}

/// `acc` holds the running results of folding `op` over the operands.
pub open spec fn reduce_trace<F: Scalar>(
    op: ReduceKind,
    args: Seq<NodeId>,
    vals: Seq<F>,
    acc: Seq<F>,
) -> bool {
    &&& acc.len() == args.len() + 1
    &&& call_ensures(F::identity, (op,), acc[0])
    &&& forall|k: int|
        0 <= k < args.len() ==> call_ensures(
            F::combine,
            (op, #[trigger] acc[k], vals[args[k].0 as int]),
            acc[k + 1],
        )
}

/// `acc` holds the running results of the fused dot product of two node lists.
pub open spec fn dot_trace<F: Scalar>(
    a: Seq<NodeId>,
    b: Seq<NodeId>,
    vals: Seq<F>,
    acc: Seq<F>,
) -> bool {
    &&& acc.len() == shorter(a.len(), b.len()) + 1
    &&& zeros(acc[0])
    &&& forall|k: int|
        0 <= k < shorter(a.len(), b.len()) ==> fuses(
            vals[a[k].0 as int],
            vals[b[k].0 as int],
            #[trigger] acc[k],
            acc[k + 1],
        )
}

/// `k` is the segment that a scan of the inner breakpoints `1 .. n` picks for
/// `x`, where `hits[j]` is what the test `points[j] <= x` came out as: the last
/// hit, or the first segment if there is none.
pub open spec fn segment_scan<F: Scalar>(
    x: F,
    points: Seq<F>,
    n: int,
    hits: Seq<bool>,
    k: int,
) -> bool {
    &&& hits.len() == n
    &&& forall|j: int| 1 <= j < n ==> les(points[j], x, #[trigger] hits[j])
    &&& (k == 0 || (1 <= k < n && hits[k]))
    &&& forall|j: int| k < j < n ==> !(#[trigger] hits[j])
}

/// `y` is `y0 + ((x - x0) / (x1 - x0)) * (y1 - y0)`, computed in that order with
/// the listed intermediate values.
pub open spec fn lerp_steps<F: Scalar>(
    x: F,
    x0: F,
    x1: F,
    y0: F,
    y1: F,
    dx: F,
    span: F,
    t: F,
    dy: F,
    rise: F,
    y: F,
) -> bool {
    &&& subs(x, x0, dx)
    &&& subs(x1, x0, span)
    &&& divs(dx, span, t)
    &&& subs(y1, y0, dy)
    &&& muls(t, dy, rise)
    &&& adds(y0, rise, y)
}

/// `y` is the linear interpolation at `x` through `(x0, y0)` and `(x1, y1)`.
pub open spec fn lerps<F: Scalar>(x: F, x0: F, x1: F, y0: F, y1: F, y: F) -> bool {
    exists|dx: F, span: F, t: F, dy: F, rise: F| #[trigger]
        lerp_steps(x, x0, x1, y0, y1, dx, span, t, dy, rise, y)
}

/// `y` is what holding the ends of the table makes of the interpolated `raw`.
pub open spec fn held<F: Scalar>(
    x: F,
    points: Seq<F>,
    values: Seq<F>,
    above: bool,
    below: bool,
    raw: F,
    y: F,
) -> bool {
    let last = points.len() - 1;
    &&& lts(points[last], x, above)
    &&& if above {
        y == values[last]
    } else {
        lts(x, points[0], below) && y == if below {
            values[0]
        } else {
            raw
        }
    }
}

/// `raw` interpolates at `x` in the segment that the scan picked.
pub open spec fn segment_value<F: Scalar>(
    x: F,
    points: Seq<F>,
    values: Seq<F>,
    hits: Seq<bool>,
    k: int,
    raw: F,
) -> bool {
    &&& segment_scan(x, points, points.len() - 1, hits, k)
    &&& lerps(x, points[k], points[k + 1], values[k], values[k + 1], raw)
}

/// `y` is the value of the piecewise-linear table at `x`. With fewer than two
/// breakpoints it is the first value, or zero if there is none.
pub open spec fn table_value<F: Scalar>(
    x: F,
    points: Seq<F>,
    values: Seq<F>,
    clamp: bool,
    y: F,
) -> bool {
    if points.len() < 2 {
        if values.len() > 0 {
            y == values[0]
        } else {
            zeros(y)
        }
    } else {
        exists|hits: Seq<bool>, k: int, raw: F| #[trigger]
            segment_value(x, points, values, hits, k, raw) && (if clamp {
                exists|above: bool, below: bool| #[trigger]
                    held(x, points, values, above, below, raw, y)
            } else {
                y == raw
            })
    }
}

/// `v` is a value that `op` may have, where `vals` holds the values of the ops
/// before it.
pub open spec fn op_value<F: Scalar>(op: Op<F>, ctx: EvalCtx<F>, vals: Seq<F>, v: F) -> bool {
    match op {
        Op::Const(c) => v == c,
        Op::Time => v == ctx.t,
        Op::Input { port, elem } => v == ctx.inputs@[port as int]@[elem as int],
        Op::Param { id } => v == ctx.params@[id.0 as int],
        Op::State { id } => v == ctx.state@[id.0 as int],
        Op::Memory { slot, offset } => v == ctx.memory@[slot.0 as int]@[offset as int],
        Op::Binary { op, a, b } => call_ensures(
            F::binary,
            (op, vals[a.0 as int], vals[b.0 as int]),
            v,
        ),
        Op::Unary { op, a } => call_ensures(F::unary, (op, vals[a.0 as int]), v),
        Op::Cmp { op, a, b } => call_ensures(
            F::relation,
            (op, vals[a.0 as int], vals[b.0 as int]),
            v,
        ),
        Op::Select { c, t, e } => exists|r: bool| #[trigger]
            nonzeros(vals[c.0 as int], r) && v == if r {
                vals[t.0 as int]
            } else {
                vals[e.0 as int]
            },
        Op::Fma { a, b, c } => fuses(vals[a.0 as int], vals[b.0 as int], vals[c.0 as int], v),
        Op::Reduce { op, args } => exists|acc: Seq<F>| #[trigger]
            reduce_trace(op, args@, vals, acc) && v == acc.last(),
        Op::Dot { a, b } => exists|acc: Seq<F>| #[trigger]
            dot_trace(a@, b@, vals, acc) && v == acc.last(),
        Op::Lut1d { input, points, values, clamp } => table_value(
            vals[input.0 as int],
            points@,
            values@,
            clamp,
            v,
        ),
        Op::Call { .. } => false,
    }
}

/// `vals` holds, in order, the values of the first `n` ops of a region.
pub open spec fn values_trace<F: Scalar>(
    ops: Seq<Op<F>>,
    ctx: EvalCtx<F>,
    n: int,
    vals: Seq<F>,
) -> bool {
    &&& vals.len() == n
    &&& forall|i: int|
        0 <= i < n ==> op_value(#[trigger] ops[i], ctx, vals.take(i), vals[i])
}

/// `out` lists the stored values of a region whose ops have the values `vals`.
pub open spec fn stores<F: Scalar>(region: Region<F>, vals: Seq<F>, out: Seq<F>) -> bool {
    &&& out.len() == region.writes@.len()
    &&& forall|k: int|
        0 <= k < out.len() ==> #[trigger] out[k] == vals[write_src(
            region.writes@[k],
        ).0 as int]
}

fn at(i: u32) -> (r: usize)
    ensures
        r == i,
{
    i as usize
}

fn reduce<F: Scalar>(op: ReduceKind, args: &Vec<NodeId>, vals: &Vec<F>) -> (v: F)
    requires
        nodes_before(args@, vals@.len() as int),
    ensures
        exists|acc: Seq<F>| #[trigger] reduce_trace(op, args@, vals@, acc) && v == acc.last(),
{
    let mut v: F = F::identity(op);
    let ghost mut acc: Seq<F> = seq![v];
    let mut k: usize = 0;
    while k < args.len()
        invariant
            k <= args.len(),
            nodes_before(args@, vals@.len() as int),
            reduce_trace(op, args@.take(k as int), vals@, acc),
            v == acc.last(),
        decreases args.len() - k,
    {
        let n: NodeId = args[k];
        let next: F = F::combine(op, v, vals[n.idx()]);
        proof {
            let grown = acc.push(next);
            assert forall|j: int| 0 <= j < k + 1 implies call_ensures(
                F::combine,
                (op, #[trigger] grown[j], vals@[args@.take(k + 1)[j].0 as int]),
                grown[j + 1],
            ) by {
                if j < k {
                    assert(grown[j] == acc[j]);
                    assert(args@.take(k as int)[j] == args@.take(k + 1)[j]);
                }
            }
            acc = grown;
        }
        v = next;
        k += 1;
    }
    assert(args@.take(k as int) =~= args@);
    v
}

fn dot<F: Scalar>(a: &Vec<NodeId>, b: &Vec<NodeId>, vals: &Vec<F>) -> (v: F)
    requires
        leading_before(a@, shorter(a@.len(), b@.len()) as int, vals@.len() as int),
        leading_before(b@, shorter(a@.len(), b@.len()) as int, vals@.len() as int),
    ensures
        exists|acc: Seq<F>| #[trigger] dot_trace(a@, b@, vals@, acc) && v == acc.last(),
{
    let n: usize = if a.len() <= b.len() {
        a.len()
    } else {
        b.len()
    };
    let mut v: F = F::zero();
    let ghost mut acc: Seq<F> = seq![v];
    let mut k: usize = 0;
    while k < n
        invariant
            k <= n,
            n == shorter(a@.len(), b@.len()),
            leading_before(a@, n as int, vals@.len() as int),
            leading_before(b@, n as int, vals@.len() as int),
            acc.len() == k + 1,
            zeros(acc[0]),
            forall|j: int|
                0 <= j < k ==> fuses(
                    vals@[a@[j].0 as int],
                    vals@[b@[j].0 as int],
                    #[trigger] acc[j],
                    acc[j + 1],
                ),
            v == acc.last(),
        decreases n - k,
    {
        let na: NodeId = a[k];
        let nb: NodeId = b[k];
        assert(a@[k as int].0 < vals@.len() && b@[k as int].0 < vals@.len());
        let next: F = vals[na.idx()].fused(vals[nb.idx()], v);
        proof {
            let grown = acc.push(next);
            assert forall|j: int| 0 <= j < k + 1 implies fuses(
                vals@[a@[j].0 as int],
                vals@[b@[j].0 as int],
                #[trigger] grown[j],
                grown[j + 1],
            ) by {
                if j < k {
                    assert(grown[j] == acc[j]);
                }
            }
            acc = grown;
        }
        v = next;
        k += 1;
    }
    assert(dot_trace(a@, b@, vals@, acc));
    v
}

fn lerp<F: Scalar>(x: F, x0: F, x1: F, y0: F, y1: F) -> (y: F)
    ensures
        lerps(x, x0, x1, y0, y1, y),
{
    let dx: F = x.minus(x0);
    let span: F = x1.minus(x0);
    let t: F = dx.over(span);
    let dy: F = y1.minus(y0);
    let rise: F = t.times(dy);
    let y: F = y0.plus(rise);
    assert(lerp_steps(x, x0, x1, y0, y1, dx, span, t, dy, rise, y));
    y
}

/// Value at `x` of the piecewise-linear table through `points` and `values`.
/// The segment is the last inner breakpoint not above `x`; past either end the
/// boundary segment continues unless `clamp` holds the end value.
pub fn lut1d<F: Scalar>(x: F, points: &[F], values: &[F], clamp: bool) -> (y: F)
    requires
        points@.len() >= 2 ==> values@.len() >= points@.len(),
    ensures
        table_value(x, points@, values@, clamp, y),
{
    let n: usize = points.len();
    if n < 2 {
        if values.len() > 0 {
            return values[0];
        }
        return F::zero();
    }
    let mut k: usize = 0;
    let mut j: usize = 1;
    let ghost mut hits: Seq<bool> = seq![false];
    while j < n - 1
        invariant
            1 <= j <= n - 1,
            n == points@.len(),
            segment_scan(x, points@, j as int, hits, k as int),
        decreases n - j,
    {
        let hit: bool = points[j].at_most(x);
        let ghost grown = hits.push(hit);
        proof {
            assert(les(points@[j as int], x, hit));
            assert forall|i: int| 1 <= i < j + 1 implies les(points@[i], x, #[trigger] grown[i]) by {
                if i < j {
                    assert(grown[i] == hits[i]);
                }
            }
        }
        if hit {
            k = j;
        }
        proof {
            assert forall|i: int| k < i < j + 1 implies !(#[trigger] grown[i]) by {
                if i < j {
                    assert(grown[i] == hits[i]);
                }
            }
            hits = grown;
        }
        j += 1;
    }
    let raw: F = lerp(x, points[k], points[k + 1], values[k], values[k + 1]);
    assert(segment_value(x, points@, values@, hits, k as int, raw));
    if clamp {
        let above: bool = points[n - 1].below(x);
        if above {
            assert(held(x, points@, values@, above, false, raw, values@[n - 1]));
            return values[n - 1];
        }
        let under: bool = x.below(points[0]);
        if under {
            assert(held(x, points@, values@, above, under, raw, values@[0]));
            return values[0];
        }
        assert(held(x, points@, values@, above, under, raw, raw));
    }
    raw
}

fn eval_op<F: Scalar>(op: &Op<F>, ctx: &EvalCtx<F>, vals: &Vec<F>) -> (r: Option<F>)
    requires
        op_in_range(*op, vals@.len() as int, *ctx),
    ensures
        match r {
            Some(v) => op_value(*op, *ctx, vals@, v),
            None => op is Call,
        },
        op is Call ==> r is None,
{
    match op {
        Op::Const(c) => Some(*c),
        Op::Time => Some(ctx.t),
        Op::Input { port, elem } => Some(ctx.inputs[at(*port)][at(*elem)]),
        Op::Param { id } => Some(ctx.params[id.idx()]),
        Op::State { id } => Some(ctx.state[id.idx()]),
        Op::Memory { slot, offset } => Some(ctx.memory[slot.idx()][at(*offset)]),
        Op::Binary { op, a, b } => Some(F::binary(*op, vals[a.idx()], vals[b.idx()])),
        Op::Unary { op, a } => Some(F::unary(*op, vals[a.idx()])),
        Op::Cmp { op, a, b } => Some(F::relation(*op, vals[a.idx()], vals[b.idx()])),
        Op::Select { c, t, e } => {
            let r: bool = nonzero(vals[c.idx()]);
            if r {
                Some(vals[t.idx()])
            } else {
                Some(vals[e.idx()])
            }
        },
        Op::Fma { a, b, c } => Some(vals[a.idx()].fused(vals[b.idx()], vals[c.idx()])),
        Op::Reduce { op, args } => Some(reduce(*op, args, vals)),
        Op::Dot { a, b } => Some(dot(a, b, vals)),
        Op::Lut1d { input, points, values, clamp } => Some(
            lut1d(vals[input.idx()], points.as_slice(), values.as_slice(), *clamp),
        ),
        Op::Call { .. } => None,
    }
}

/// Runs the ops of a region in order and returns the stored values, in the
/// order of the writes and whatever their kind. Fails if the region calls an
/// opaque routine.
pub fn eval_region<F: Scalar>(region: &Region<F>, ctx: &EvalCtx<F>) -> (r: Result<
    Vec<F>,
    EvalError,
>)
    requires
        runnable(*region, *ctx),
    ensures
        r is Err <==> !calls_nothing(region.ops@, region.ops@.len() as int),
        r is Err ==> r->Err_0 == EvalError::ExternCall,
        r is Ok ==> exists|vals: Seq<F>| #[trigger]
            values_trace(region.ops@, *ctx, region.ops@.len() as int, vals) && stores(
                *region,
                vals,
                r->Ok_0@,
            ),
{
    let mut vals: Vec<F> = Vec::with_capacity(region.ops.len());
    let mut i: usize = 0;
    while i < region.ops.len()
        invariant
            i <= region.ops.len(),
            runnable(*region, *ctx),
            calls_nothing(region.ops@, i as int),
            values_trace(region.ops@, *ctx, i as int, vals@),
        decreases region.ops.len() - i,
    {
        match eval_op(&region.ops[i], ctx, &vals) {
            Some(v) => {
                let ghost before = vals@;
                vals.push(v);
                proof {
                    assert forall|j: int| 0 <= j < i + 1 implies op_value(
                        #[trigger] region.ops@[j],
                        *ctx,
                        vals@.take(j),
                        vals@[j],
                    ) by {
                        assert(vals@.take(j) =~= before.take(j));
                        if j == i {
                            assert(before.take(j) =~= before);
                        }
                    }
                }
            },
            None => {
                return Err(EvalError::ExternCall);
            },
        }
        i += 1;
    }
    let mut out: Vec<F> = Vec::with_capacity(region.writes.len());
    let mut k: usize = 0;
    while k < region.writes.len()
        invariant
            k <= region.writes.len(),
            runnable(*region, *ctx),
            calls_nothing(region.ops@, region.ops@.len() as int),
            vals@.len() == region.ops@.len(),
            out@.len() == k,
            forall|j: int|
                0 <= j < k ==> #[trigger] out@[j] == vals@[write_src(region.writes@[j]).0 as int],
        decreases region.writes.len() - k,
    {
        let src: NodeId = match region.writes[k] {
            Write::Output { src, .. } => src,
            Write::StateDeriv { src, .. } => src,
            Write::StateWrite { src, .. } => src,
            Write::MemoryWrite { src, .. } => src,
        };
        out.push(vals[src.idx()]);
        k += 1;
    }
    assert(stores(*region, vals@, out@));
    Ok(out)
}

} // verus!
