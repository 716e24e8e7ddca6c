//! What holds of the IR as a whole.

use vstd::prelude::*;

use crate::ir::builder::{
    alg_region, built, dyn_region, input_read, kind_of, lemma_port_offset_monotone, lowered,
    lowers, mem_region, on_port, port_offset, port_split, role_of, same_nodes, LeafOps, RoleFlags,
};
use crate::ir::eval::{
    calls_nothing, dot_trace, op_in_range, op_value, reduce_trace, runnable, shorter, stores,
    values_trace, write_src, EvalCtx,
};
use crate::ir::graph::{
    decoded, in_slot, slot_offset, EventKindSpec, Graph, MemTarget, Node, Slot, SlotKind,
};
use crate::ir::sameness::{
    lemma_host_events, lemma_same_child, lemma_same_scope, same_events, same_number,
    same_subsystem,
};
use crate::ir::schema::{
    Block, BlockId, Child, ConnectionId, Event, EventKind, ExternDecl, ExternId, Module, NodeId,
    Op, ParamValue, ReduceKind, Region, Schedule, ScheduleTimes, Subsystem, Write,
};
use crate::ir::scope::{
    ascending_set, child_ir, extern_of, externs_before, externs_in, externs_ir, graph_of, leaf_ir,
    leaf_of, lemma_child_of, lowerable, module_ir, nested_name, opaque_block_of, opaque_event_of,
    same_connections, schedule_ir, scope_externs_ir, scope_ir, subsystem_ir, subsystems_before,
};
use crate::model::{BlockModel, EventDescriptor, GraphAnalysis, ScopeModel};
use crate::scalar::{decodes, fuses, nonzeros, zeros, Scalar};

verus! {

/// The node uses only nodes before position `i`.
pub open spec fn operands_before(node: Node, i: int) -> bool {
    match node {
        Node::Const(_) => true,
        Node::Input(_) => true,
        Node::Param(_) => true,
        Node::Binary(_, a, b) => a < i && b < i,
        Node::Unary(_, a) => a < i,
        Node::Cmp(_, a, b) => a < i && b < i,
        Node::Select(c, t, e) => c < i && t < i && e < i,
        Node::Fma(a, b, c) => a < i && b < i && c < i,
        Node::Reduce(_, args) => forall|k: int| 0 <= k < args@.len() ==> #[trigger] args@[k] < i,
        Node::Dot(a, b) => (forall|k: int| 0 <= k < a@.len() ==> #[trigger] a@[k] < i) && (
        forall|k: int| 0 <= k < b@.len() ==> #[trigger] b@[k] < i),
    }
}

/// The environment holds what flat input `flat` reads.
pub open spec fn read_fits<F>(flat: u32, slots: Seq<Slot>, sizes: Seq<u32>, ctx: EvalCtx<F>) -> bool {
    let s = decoded(slots, flat as int).0;
    &&& 0 <= s < slots.len()
    &&& slots[s].size <= u32::MAX
    &&& match slots[s].kind {
        SlotKind::State => slots[s].size <= ctx.state@.len(),
        SlotKind::Time => true,
        SlotKind::Memory(k) => k < ctx.memory@.len() && slots[s].size
            <= ctx.memory@[k as int]@.len(),
        SlotKind::Input => slots[s].size <= port_offset(sizes, sizes.len() as int),
    }
}

/// The environment has the ports of the given sizes.
pub open spec fn ports_fit<F>(sizes: Seq<u32>, ctx: EvalCtx<F>) -> bool {
    &&& sizes.len() == ctx.inputs@.len()
    &&& sizes.len() <= u32::MAX
    &&& forall|p: int| 0 <= p < sizes.len() ==> (#[trigger] sizes[p]) <= ctx.inputs@[p]@.len()
}

/// The graph is in SSA form and reads only what the environment holds.
pub open spec fn graph_fits<F>(graph: Graph<F>, sizes: Seq<u32>, ctx: EvalCtx<F>) -> bool {
    &&& ports_fit(sizes, ctx)
    &&& forall|i: int|
        0 <= i < graph.nodes@.len() ==> {
            &&& operands_before(#[trigger] graph.nodes@[i], i)
            &&& graph.nodes@[i] matches Node::Input(flat) ==> read_fits(
                flat,
                graph.signature.slots@,
                sizes,
                ctx,
            )
            &&& graph.nodes@[i] matches Node::Param(idx) ==> idx < ctx.params@.len()
        }
    &&& forall|k: int|
        0 <= k < graph.outputs@.len() ==> #[trigger] graph.outputs@[k] < graph.nodes@.len()
}

proof fn lemma_on_some_port(sizes: Seq<u32>, n: int, flat: int)
    requires
        0 <= n <= sizes.len(),
        0 <= flat < port_offset(sizes, n),
    ensures
        exists|p: int| on_port(sizes, flat, p),
    decreases n,
{
    if n > 0 {
        if flat < port_offset(sizes, n - 1) {
            lemma_on_some_port(sizes, n - 1, flat);
        } else {
            assert(on_port(sizes, flat, n - 1));
        }
    }
}

proof fn lemma_read_in_range<F>(flat: u32, slots: Seq<Slot>, sizes: Seq<u32>, ctx: EvalCtx<F>, i: int)
    requires
        read_fits(flat, slots, sizes, ctx),
        ports_fit(sizes, ctx),
    ensures
        op_in_range(input_read::<F>(flat, slots, sizes), i, ctx),
        !(input_read::<F>(flat, slots, sizes) is Call),
{
    let (s, elem) = decoded(slots, flat as int);
    assert(exists|j: int| in_slot(slots, flat as int, j));
    let j = choose|j: int| in_slot(slots, flat as int, j);
    assert(s == j && in_slot(slots, flat as int, s));
    assert(slot_offset(slots, s + 1) == slot_offset(slots, s) + slots[s].size);
    assert(0 <= elem < slots[s].size);
    if slots[s].kind == SlotKind::Input {
        lemma_on_some_port(sizes, sizes.len() as int, elem);
        let narrow: u32 = elem as u32;
        let flat_elem = narrow as int;
        assert(flat_elem == elem);
        let p = choose|p: int| on_port(sizes, flat_elem, p);
        assert(on_port(sizes, elem, p));
        assert(port_offset(sizes, p + 1) == port_offset(sizes, p) + sizes[p]);
        assert(port_split(narrow, sizes) == (
            p as u32,
            (elem - port_offset(sizes, p)) as u32,
        ));
        lemma_port_offset_monotone(sizes, 0, p);
    }
}

proof fn lemma_ops_run<F: Scalar>(graph: Graph<F>, sizes: Seq<u32>, ops: Seq<Op<F>>, ctx: EvalCtx<F>)
    requires
        graph_fits(graph, sizes, ctx),
        lowers(graph, sizes, ops),
    ensures
        forall|i: int| 0 <= i < ops.len() ==> op_in_range(#[trigger] ops[i], i, ctx),
        calls_nothing(ops, ops.len() as int),
{
    assert forall|i: int| 0 <= i < ops.len() implies op_in_range(#[trigger] ops[i], i, ctx) && !(
    ops[i] is Call) by {
        let node = graph.nodes@[i];
        assert(lowered(node, graph.signature.slots@, sizes, ops[i]));
        assert(operands_before(node, i));
        if let Node::Input(flat) = node {
            lemma_read_in_range(flat, graph.signature.slots@, sizes, ctx, i);
        }
    }
}

/// A graph that fits its environment lowers to regions that run in it, whatever
/// becomes of its outputs: nothing is read out of range, nothing opaque is
/// called, and one value per output comes out.
pub proof fn law_lowered_regions_run<F: Scalar>(
    graph: Graph<F>,
    sizes: Seq<u32>,
    out_sizes: Seq<u32>,
    targets: Seq<MemTarget>,
    region: Region<F>,
    ctx: EvalCtx<F>,
)
    requires
        graph_fits(graph, sizes, ctx),
        alg_region(graph, sizes, out_sizes, region) || dyn_region(graph, sizes, region)
            || mem_region(graph, sizes, targets, region),
    ensures
        runnable(region, ctx),
        calls_nothing(region.ops@, region.ops@.len() as int),
        region.ops@.len() == graph.nodes@.len(),
        region.writes@.len() <= graph.outputs@.len(),
        forall|k: int|
            0 <= k < region.writes@.len() ==> write_src(#[trigger] region.writes@[k]).0
                == graph.outputs@[k],
{
    lemma_ops_run(graph, sizes, region.ops@, ctx);
}

/// The elements of the first `n` ports, one port after the other.
pub open spec fn joined<F>(inputs: Seq<&[F]>, sizes: Seq<u32>, n: int) -> Seq<F>
    decreases n,
{
    if n <= 0 {
        Seq::empty()
    } else {
        joined(inputs, sizes, n - 1) + inputs[n - 1]@.take(sizes[n - 1] as int)
    }
}

/// The value of flat input `flat` of a graph: the element of the state, of the
/// memory slot or of all ports together that its slot says, or the time.
pub open spec fn input_value<F>(
    flat: u32,
    slots: Seq<Slot>,
    sizes: Seq<u32>,
    ctx: EvalCtx<F>,
) -> F {
    let (s, elem) = decoded(slots, flat as int);
    match slots[s].kind {
        SlotKind::State => ctx.state@[elem],
        SlotKind::Time => ctx.t,
        SlotKind::Memory(k) => ctx.memory@[k as int]@[elem],
        SlotKind::Input => joined(ctx.inputs@, sizes, sizes.len() as int)[elem],
    }
}

/// `acc` holds the running results of folding `op` over `xs`.
pub open spec fn folds<F: Scalar>(op: ReduceKind, xs: Seq<F>, acc: Seq<F>) -> bool {
    &&& acc.len() == xs.len() + 1
    &&& call_ensures(F::identity, (op,), acc[0])
    &&& forall|k: int|
        0 <= k < xs.len() ==> call_ensures(F::combine, (op, #[trigger] acc[k], xs[k]), acc[k + 1])
}

/// `acc` holds the running results of the fused dot product of `xs` and `ys`.
pub open spec fn accumulates<F: Scalar>(xs: Seq<F>, ys: Seq<F>, acc: Seq<F>) -> bool {
    &&& acc.len() == shorter(xs.len(), ys.len()) + 1
    &&& zeros(acc[0])
    &&& forall|k: int|
        0 <= k < shorter(xs.len(), ys.len()) ==> fuses(xs[k], ys[k], #[trigger] acc[k], acc[k + 1])
}

/// The values of the listed nodes.
pub open spec fn picked<F>(vals: Seq<F>, nodes: Seq<u32>) -> Seq<F> {
    nodes.map_values(|a: u32| vals[a as int])
}

/// `v` is a value that a node of a graph may have, where `vals` holds the values
/// of the nodes before it.
pub open spec fn node_value<F: Scalar>(
    node: Node,
    slots: Seq<Slot>,
    sizes: Seq<u32>,
    ctx: EvalCtx<F>,
    vals: Seq<F>,
    v: F,
) -> bool {
    match node {
        Node::Const(bits) => decodes(bits, v),
        Node::Input(flat) => v == input_value(flat, slots, sizes, ctx),
        Node::Param(idx) => v == ctx.params@[idx as int],
        Node::Binary(op, a, b) => call_ensures(F::binary, (op, vals[a as int], vals[b as int]), v),
        Node::Unary(op, a) => call_ensures(F::unary, (op, vals[a as int]), v),
        Node::Cmp(op, a, b) => call_ensures(F::relation, (op, vals[a as int], vals[b as int]), v),
        Node::Select(c, t, e) => exists|r: bool| #[trigger]
            nonzeros(vals[c as int], r) && v == if r {
                vals[t as int]
            } else {
                vals[e as int]
            },
        Node::Fma(a, b, c) => fuses(vals[a as int], vals[b as int], vals[c as int], v),
        Node::Reduce(op, args) => exists|acc: Seq<F>| #[trigger]
            folds(op, picked(vals, args@), acc) && v == acc.last(),
        Node::Dot(a, b) => exists|acc: Seq<F>| #[trigger]
            accumulates(picked(vals, a@), picked(vals, b@), acc) && v == acc.last(),
    }
}

/// `vals` holds, in order, the values of the nodes of a graph.
pub open spec fn graph_trace<F: Scalar>(
    graph: Graph<F>,
    sizes: Seq<u32>,
    ctx: EvalCtx<F>,
    vals: Seq<F>,
) -> bool {
    &&& vals.len() == graph.nodes@.len()
    &&& forall|i: int|
        0 <= i < vals.len() ==> node_value(
            graph.nodes@[i],
            graph.signature.slots@,
            sizes,
            ctx,
            vals.take(i),
            #[trigger] vals[i],
        )
}

proof fn lemma_joined<F>(inputs: Seq<&[F]>, sizes: Seq<u32>, n: int, p: int, e: int)
    requires
        0 <= p < n <= sizes.len() == inputs.len(),
        0 <= e < sizes[p],
        forall|q: int| 0 <= q < sizes.len() ==> (#[trigger] sizes[q]) <= inputs[q]@.len(),
    ensures
        joined(inputs, sizes, n).len() == port_offset(sizes, n),
        joined(inputs, sizes, n)[port_offset(sizes, p) + e] == inputs[p]@[e],
    decreases n,
{
    lemma_joined_length(inputs, sizes, n);
    lemma_joined_length(inputs, sizes, n - 1);
    if p == n - 1 {
        assert(joined(inputs, sizes, n)[port_offset(sizes, p) + e] == inputs[n - 1]@.take(
            sizes[n - 1] as int,
        )[e]);
    } else {
        lemma_joined(inputs, sizes, n - 1, p, e);
        lemma_port_offset_monotone(sizes, p + 1, n - 1);
        lemma_port_offset_monotone(sizes, 0, p);
    }
}

proof fn lemma_joined_length<F>(inputs: Seq<&[F]>, sizes: Seq<u32>, n: int)
    requires
        0 <= n <= sizes.len() == inputs.len(),
        forall|q: int| 0 <= q < sizes.len() ==> (#[trigger] sizes[q]) <= inputs[q]@.len(),
    ensures
        joined(inputs, sizes, n).len() == port_offset(sizes, n),
    decreases n,
{
    if n > 0 {
        lemma_joined_length(inputs, sizes, n - 1);
        assert(sizes[n - 1] <= inputs[n - 1]@.len());
    }
}

proof fn lemma_read_value<F: Scalar>(
    flat: u32,
    slots: Seq<Slot>,
    sizes: Seq<u32>,
    ctx: EvalCtx<F>,
    vals: Seq<F>,
    v: F,
)
    requires
        read_fits(flat, slots, sizes, ctx),
        ports_fit(sizes, ctx),
    ensures
        op_value(input_read::<F>(flat, slots, sizes), ctx, vals, v) <==> v == input_value(
            flat,
            slots,
            sizes,
            ctx,
        ),
{
    let (s, elem) = decoded(slots, flat as int);
    assert(exists|j: int| in_slot(slots, flat as int, j));
    let j = choose|j: int| in_slot(slots, flat as int, j);
    assert(s == j && in_slot(slots, flat as int, s));
    assert(slot_offset(slots, s + 1) == slot_offset(slots, s) + slots[s].size);
    assert(0 <= elem < slots[s].size);
    let narrow: u32 = elem as u32;
    assert(narrow == elem);
    if slots[s].kind == SlotKind::Input {
        lemma_on_some_port(sizes, sizes.len() as int, elem);
        let p = choose|p: int| on_port(sizes, narrow as int, p);
        assert(on_port(sizes, elem, p));
        assert(port_offset(sizes, p + 1) == port_offset(sizes, p) + sizes[p]);
        lemma_port_offset_monotone(sizes, 0, p);
        assert(port_split(narrow, sizes) == (p as u32, (elem - port_offset(sizes, p)) as u32));
        lemma_joined(ctx.inputs@, sizes, sizes.len() as int, p, elem - port_offset(sizes, p));
    }
}

proof fn lemma_node_value<F: Scalar>(
    node: Node,
    slots: Seq<Slot>,
    sizes: Seq<u32>,
    ctx: EvalCtx<F>,
    vals: Seq<F>,
    op: Op<F>,
    v: F,
)
    requires
        lowered(node, slots, sizes, op),
        ports_fit(sizes, ctx),
        node matches Node::Input(flat) ==> read_fits(flat, slots, sizes, ctx),
    ensures
        op_value(op, ctx, vals, v) ==> node_value(node, slots, sizes, ctx, vals, v),
{
    match node {
        Node::Input(flat) => {
            lemma_read_value(flat, slots, sizes, ctx, vals, v);
        },
        Node::Reduce(k, args) => {
            let ids = op->Reduce_args@;
            if op_value(op, ctx, vals, v) {
                let acc = choose|acc: Seq<F>| #[trigger]
                    reduce_trace(k, ids, vals, acc) && v == acc.last();
                lemma_same_fold(k, args@, ids, vals, acc);
            }
        },
        Node::Dot(a, b) => {
            let ia = op->Dot_a@;
            let ib = op->Dot_b@;
            if op_value(op, ctx, vals, v) {
                let acc = choose|acc: Seq<F>| #[trigger]
                    dot_trace(ia, ib, vals, acc) && v == acc.last();
                lemma_same_dot(a@, b@, ia, ib, vals, acc);
            }
        },
        _ => {},
    }
}

proof fn lemma_same_fold<F: Scalar>(
    op: ReduceKind,
    args: Seq<u32>,
    ids: Seq<NodeId>,
    vals: Seq<F>,
    acc: Seq<F>,
)
    requires
        same_nodes(args, ids),
        reduce_trace(op, ids, vals, acc),
    ensures
        folds(op, picked(vals, args), acc),
{
    let xs = picked(vals, args);
    assert forall|k: int| 0 <= k < xs.len() implies call_ensures(
        F::combine,
        (op, #[trigger] acc[k], xs[k]),
        acc[k + 1],
    ) by {
        assert(vals[ids[k].0 as int] == xs[k]);
    }
}

proof fn lemma_same_dot<F: Scalar>(
    a: Seq<u32>,
    b: Seq<u32>,
    ia: Seq<NodeId>,
    ib: Seq<NodeId>,
    vals: Seq<F>,
    acc: Seq<F>,
)
    requires
        same_nodes(a, ia),
        same_nodes(b, ib),
        dot_trace(ia, ib, vals, acc),
    ensures
        accumulates(picked(vals, a), picked(vals, b), acc),
{
    let xs = picked(vals, a);
    let ys = picked(vals, b);
    assert forall|k: int| 0 <= k < shorter(xs.len(), ys.len()) implies fuses(
        xs[k],
        ys[k],
        #[trigger] acc[k],
        acc[k + 1],
    ) by {
        assert(vals[ia[k].0 as int] == xs[k]);
        assert(vals[ib[k].0 as int] == ys[k]);
    }
}

/// A region computes what its graph means: the values of its ops are values of the
/// graph's nodes, and what it stores are the graph's outputs in order.
pub proof fn law_lowering_keeps_values<F: Scalar>(
    graph: Graph<F>,
    sizes: Seq<u32>,
    out_sizes: Seq<u32>,
    targets: Seq<MemTarget>,
    region: Region<F>,
    ctx: EvalCtx<F>,
    vals: Seq<F>,
    out: Seq<F>,
)
    requires
        graph_fits(graph, sizes, ctx),
        alg_region(graph, sizes, out_sizes, region) || dyn_region(graph, sizes, region)
            || mem_region(graph, sizes, targets, region),
        values_trace(region.ops@, ctx, region.ops@.len() as int, vals),
        stores(region, vals, out),
    ensures
        graph_trace(graph, sizes, ctx, vals),
        forall|k: int| 0 <= k < out.len() ==> #[trigger] out[k] == vals[graph.outputs@[k] as int],
        !mem_region(graph, sizes, targets, region) ==> out.len() == graph.outputs@.len(),
{
    assert forall|i: int| 0 <= i < vals.len() implies node_value(
        graph.nodes@[i],
        graph.signature.slots@,
        sizes,
        ctx,
        vals.take(i),
        #[trigger] vals[i],
    ) by {
        let op = region.ops@[i];
        assert(op_value(op, ctx, vals.take(i), vals[i]));
        assert(lowered(graph.nodes@[i], graph.signature.slots@, sizes, op));
        assert(operands_before(graph.nodes@[i], i));
        lemma_node_value(
            graph.nodes@[i],
            graph.signature.slots@,
            sizes,
            ctx,
            vals.take(i),
            op,
            vals[i],
        );
    }
    assert forall|k: int| 0 <= k < out.len() implies #[trigger] out[k]
        == vals[graph.outputs@[k] as int] by {
        assert(write_src(region.writes@[k]).0 == graph.outputs@[k]);
    }
}

/// A subsystem on its own is the node that the snapshot of its model holds for it:
/// the two agree in every field, down to the ops of the innermost blocks.
pub proof fn law_subsystem_is_embedded<F: Scalar>(
    scope: ScopeModel<F>,
    events: Seq<EventDescriptor<F>>,
    name: Seq<char>,
    module: Module<F>,
    i: int,
    sub: Subsystem<F>,
)
    requires
        module_ir(scope, events, name, module),
        0 <= i < scope.blocks@.len(),
        child_ir(
            scope.blocks@[i],
            i,
            "root"@,
            subsystems_before(scope.blocks@, i) as int,
            externs_before(scope.blocks@, i) as int,
            Child::Subsystem(sub),
        ),
    ensures
        module.root.children@[i] matches Child::Subsystem(s) && same_subsystem(s, sub),
{
    lemma_child_of(scope, "root"@, 0, 0, module.root, i);
    lemma_same_child(
        scope.blocks@[i],
        i,
        "root"@,
        subsystems_before(scope.blocks@, i) as int,
        externs_before(scope.blocks@, i) as int,
        module.root.children@[i],
        Child::Subsystem(sub),
    );
    reveal(child_ir);
}

/// Where a bit pattern stands for one number only, the numbers of pieces of IR that are
/// the same are equal.
pub proof fn law_same_numbers_are_equal<F: Scalar>(a: F, b: F)
    requires
        forall|bits: u64, x: F, y: F| #[trigger]
            decodes(bits, x) && #[trigger] decodes(bits, y) ==> x == y,
        same_number(a, b),
    ensures
        a == b,
{
}

/// The block among the first `n` to which extern number `r` of a scope belongs.
proof fn lemma_extern_owner<F>(blocks: Seq<BlockModel<F>>, r: int, n: int) -> (i: int)
    requires
        0 <= n <= blocks.len(),
        0 <= r < externs_before(blocks, n),
    ensures
        0 <= i < n,
        externs_before(blocks, i) <= r < externs_before(blocks, i) + externs_in(blocks[i]),
    decreases n,
{
    if r < externs_before(blocks, n - 1) {
        lemma_extern_owner(blocks, r, n - 1)
    } else {
        n - 1
    }
}

proof fn lemma_same_extern<F>(
    m: BlockModel<F>,
    exts: int,
    a: Seq<ExternDecl>,
    b: Seq<ExternDecl>,
    k: int,
)
    requires
        0 <= exts <= k < exts + externs_in(m),
        externs_ir(m, exts, a),
        externs_ir(m, exts, b),
    ensures
        same_extern(a[k], b[k]),
    decreases m,
{
    reveal(externs_ir);
    match m.inner {
        Some(s) => {
            let i = lemma_extern_owner(s.blocks@, k - exts, s.blocks@.len() as int);
            lemma_same_extern(s.blocks@[i], exts + externs_before(s.blocks@, i), a, b, k);
        },
        None => {},
    }
}

/// The declarations are of the same extern, by number, name and widths.
pub open spec fn same_extern(a: ExternDecl, b: ExternDecl) -> bool {
    &&& a.id == b.id
    &&& a.name@ == b.name@
    &&& a.arity_in == b.arity_in
    &&& a.arity_out == b.arity_out
}

/// The snapshot of a model is a function of the model: two of them agree in every
/// field.
pub proof fn law_snapshot_is_repeatable<F: Scalar>(
    scope: ScopeModel<F>,
    events: Seq<EventDescriptor<F>>,
    name: Seq<char>,
    a: Module<F>,
    b: Module<F>,
)
    requires
        module_ir(scope, events, name, a),
        module_ir(scope, events, name, b),
    ensures
        a.ir_version == b.ir_version,
        a.name@ == b.name@,
        a.description@ == b.description@,
        same_subsystem(a.root, b.root),
        same_events(a.events@, b.events@),
        a.extern_decls@.len() == b.extern_decls@.len(),
        forall|k: int|
            0 <= k < a.extern_decls@.len() ==> same_extern(
                #[trigger] a.extern_decls@[k],
                b.extern_decls@[k],
            ),
{
    assert forall|k: int| 0 <= k < a.extern_decls@.len() implies same_extern(
        #[trigger] a.extern_decls@[k],
        b.extern_decls@[k],
    ) by {
        let i = lemma_extern_owner(scope.blocks@, k, scope.blocks@.len() as int);
        lemma_same_extern(
            scope.blocks@[i],
            externs_before(scope.blocks@, i) as int,
            a.extern_decls@,
            b.extern_decls@,
            k,
        );
    }
    assert(a.description@ =~= b.description@);
    assert(a.root.id == b.root.id);
    lemma_same_scope(scope, "root"@, 0, 0, a.root, b.root);
    lemma_host_events(events, a.events@, b.events@);
}

/// Declaration `k` is that of the extern `id`, takes `args` arguments and has output
/// `out_idx`.
pub open spec fn declares(
    decls: Seq<ExternDecl>,
    k: int,
    id: ExternId,
    args: nat,
    out_idx: u32,
) -> bool {
    &&& 0 <= k < decls.len()
    &&& decls[k].id == id
    &&& args == decls[k].arity_in
    &&& out_idx < decls[k].arity_out
}

/// An op that calls an extern calls one that is declared.
pub open spec fn op_declared<F>(op: Op<F>, decls: Seq<ExternDecl>) -> bool {
    op matches Op::Call { id, args, out_idx } ==> exists|k: int| #[trigger]
        declares(decls, k, id, args@.len(), out_idx)
}

/// All calls of the region are of declared externs.
pub open spec fn region_declared<F>(r: Region<F>, decls: Seq<ExternDecl>) -> bool {
    forall|i: int| 0 <= i < r.ops@.len() ==> op_declared(#[trigger] r.ops@[i], decls)
}

/// All calls of the event, in its guard and in its effect, are of declared externs.
pub open spec fn event_declared<F>(e: Event<F>, decls: Seq<ExternDecl>) -> bool {
    &&& region_declared(e.effect, decls)
    &&& match e.kind {
        EventKind::ZeroCross { guard, direction: _ } => region_declared(guard, decls),
        EventKind::Schedule { times: _ } => true,
        EventKind::Condition { guard } => region_declared(guard, decls),
    }
}

/// All calls of the events are of declared externs.
pub open spec fn events_declared<F>(events: Seq<Event<F>>, decls: Seq<ExternDecl>) -> bool {
    forall|k: int| 0 <= k < events.len() ==> event_declared(#[trigger] events[k], decls)
}

/// All calls below the child, at any depth, are of declared externs.
pub open spec fn child_declared<F>(c: Child<F>, decls: Seq<ExternDecl>) -> bool
    decreases c,
{
    match c {
        Child::Block(b) => {
            &&& region_declared(b.regions.alg, decls)
            &&& region_declared(b.regions.dyn_, decls)
            &&& events_declared(b.events@, decls)
        },
        Child::Subsystem(s) => forall|i: int|
            0 <= i < s.children@.len() ==> child_declared(#[trigger] s.children@[i], decls),
    }
}

/// All calls of the module are of externs that it declares.
pub open spec fn module_declared<F>(module: Module<F>) -> bool {
    &&& child_declared(Child::Subsystem(module.root), module.extern_decls@)
    &&& events_declared(module.events@, module.extern_decls@)
}

/// An op graph calls nothing.
proof fn lemma_lowered_declared<F: Scalar>(
    graph: Graph<F>,
    sizes: Seq<u32>,
    r: Region<F>,
    decls: Seq<ExternDecl>,
)
    requires
        lowers(graph, sizes, r.ops@),
    ensures
        region_declared(r, decls),
{
    assert forall|i: int| 0 <= i < r.ops@.len() implies op_declared(#[trigger] r.ops@[i], decls) by {
        assert(lowered(graph.nodes@[i], graph.signature.slots@, sizes, r.ops@[i]));
    }
}

/// An opaque block calls the extern that is declared for it, with as many arguments
/// as the extern takes and an output that it has.
proof fn lemma_opaque_declared<F>(
    m: BlockModel<F>,
    id: BlockId,
    ext: ExternId,
    b: Block<F>,
    decls: Seq<ExternDecl>,
    at: int,
)
    requires
        opaque_block_of(m, id, ext, b),
        0 <= at < decls.len(),
        extern_of(m, ext, decls[at]),
    ensures
        region_declared(b.regions.alg, decls),
{
    let inputs = m.n_inputs as u32;
    let ops = b.regions.alg.ops@;
    assert forall|i: int| 0 <= i < ops.len() implies op_declared(#[trigger] ops[i], decls) by {
        if i < inputs {
            assert(ops[i] == (Op::<F>::Input { port: 0, elem: i as u32 }));
        } else {
            let k = i - inputs;
            assert(write_src(b.regions.alg.writes@[k]).0 == (inputs + k) as u32);
            assert(inputs + k == i);
            match ops[i] {
                Op::Call { id: called, args, out_idx } => {
                    assert(declares(decls, at, called, args@.len(), out_idx));
                },
                _ => {},
            }
        }
    }
}

proof fn lemma_leaf_declared<F: Scalar>(
    m: BlockModel<F>,
    id: BlockId,
    b: Block<F>,
    decls: Seq<ExternDecl>,
)
    requires
        leaf_ir(m, id, b),
    ensures
        child_declared(Child::Block(b), decls),
{
    let (inputs, outputs) = (m.n_inputs as u32, m.n_outputs as u32);
    let ops = choose|ops: LeafOps<F>| #[trigger]
        leaf_of(m, ops) && built(ops, m.role, id, inputs, outputs, b);
    let (graph, _, events) = ops.chosen()->Some_0;
    let sizes = seq![inputs];
    match ops.lut1d {
        Some(_) => {},
        None => {
            lemma_lowered_declared(graph, sizes, b.regions.alg, decls);
        },
    }
    match ops.dyn_ {
        Some(rg) => {
            lemma_lowered_declared(rg.resolved()->Some_0, sizes, b.regions.dyn_, decls);
        },
        None => {},
    }
    assert forall|k: int| 0 <= k < b.events@.len() implies event_declared(
        #[trigger] b.events@[k],
        decls,
    ) by {
        let e = b.events@[k];
        lemma_lowered_declared(events[k].effect, sizes, e.effect, decls);
        match events[k].kind {
            EventKindSpec::ZeroCross { guard, direction } => {
                lemma_lowered_declared(guard, sizes, e.kind->ZeroCross_guard, decls);
            },
            EventKindSpec::Condition { guard } => {
                lemma_lowered_declared(guard, sizes, e.kind->Condition_guard, decls);
            },
            _ => {},
        }
    }
}

proof fn lemma_child_declared<F: Scalar>(
    m: BlockModel<F>,
    i: int,
    scope: Seq<char>,
    ids: int,
    exts: int,
    c: Child<F>,
    decls: Seq<ExternDecl>,
)
    requires
        0 <= exts,
        child_ir(m, i, scope, ids, exts, c),
        externs_ir(m, exts, decls),
    ensures
        child_declared(c, decls),
    decreases m,
{
    reveal(child_ir);
    reveal(externs_ir);
    match m.inner {
        Some(s) => {
            let sub = c->Subsystem_0;
            let name = nested_name(scope, i);
            assert forall|k: int| 0 <= k < sub.children@.len() implies child_declared(
                #[trigger] sub.children@[k],
                decls,
            ) by {
                lemma_child_of(*s, name, ids + 1, exts, sub, k);
                lemma_child_declared(
                    s.blocks@[k],
                    k,
                    name,
                    ids + 1 + subsystems_before(s.blocks@, k),
                    exts + externs_before(s.blocks@, k),
                    sub.children@[k],
                    decls,
                );
            }
        },
        None => {
            let b = c->Block_0;
            if lowerable(m) {
                lemma_leaf_declared(m, BlockId(i as u32), b, decls);
            } else {
                lemma_opaque_declared(
                    m,
                    BlockId(i as u32),
                    ExternId(exts as u32),
                    b,
                    decls,
                    exts,
                );
            }
        },
    }
}

/// The calls of a scope are of the externs that are declared for it.
proof fn lemma_scope_declared<F: Scalar>(
    scope: ScopeModel<F>,
    name: Seq<char>,
    sub: Subsystem<F>,
    decls: Seq<ExternDecl>,
)
    requires
        scope_ir(scope, name, 0, 0, sub),
        scope_externs_ir(scope.blocks@, 0, decls),
    ensures
        child_declared(Child::Subsystem(sub), decls),
{
    assert forall|i: int| 0 <= i < sub.children@.len() implies child_declared(
        #[trigger] sub.children@[i],
        decls,
    ) by {
        lemma_child_of(scope, name, 0, 0, sub, i);
        lemma_child_declared(
            scope.blocks@[i],
            i,
            name,
            subsystems_before(scope.blocks@, i) as int,
            externs_before(scope.blocks@, i) as int,
            sub.children@[i],
            decls,
        );
    }
}

/// Every call in a snapshot, in whatever region of whatever block at whatever depth, is
/// of an extern that the snapshot declares, with as many arguments as the extern takes
/// and an output that it has.
pub proof fn law_calls_are_declared<F: Scalar>(
    scope: ScopeModel<F>,
    events: Seq<EventDescriptor<F>>,
    name: Seq<char>,
    module: Module<F>,
)
    requires
        module_ir(scope, events, name, module),
    ensures
        module_declared(module),
{
    lemma_scope_declared(scope, "root"@, module.root, module.extern_decls@);
}

/// So is every call in the module that is made of one subsystem.
pub proof fn law_subsystem_calls_are_declared<F: Scalar>(m: BlockModel<F>, module: Module<F>)
    requires
        subsystem_ir(m, module.root),
        module.events@.len() == 0,
        scope_externs_ir(m.inner->Some_0.blocks@, 0, module.extern_decls@),
    ensures
        module_declared(module),
{
    lemma_scope_declared(*m.inner->Some_0, "subsystem"@, module.root, module.extern_decls@);
}

/// Where the analysis orders every node once, the schedule orders every block once,
/// with the interface block for its node.
pub proof fn law_schedule_covers_blocks_once(
    n: int,
    has_iface: bool,
    g: GraphAnalysis,
    s: Schedule,
)
    requires
        schedule_ir(n, has_iface, g, s),
        0 <= n < u32::MAX,
        g.topo_order@.no_duplicates(),
        forall|node: usize|
            #[trigger] g.topo_order@.contains(node) <==> node < n || (has_iface && node == n),
    ensures
        s.topo@.no_duplicates(),
        forall|i: int| 0 <= i < n ==> #[trigger] s.topo@.contains(BlockId(i as u32)),
        has_iface ==> s.topo@.contains(BlockId(u32::MAX)),
{
    let order = g.topo_order@;
    assert forall|i: int, j: int| 0 <= i < j < s.topo@.len() implies s.topo@[i] != s.topo@[j] by {
        assert(order.contains(order[i]) && order.contains(order[j]));
        assert(order[i] != order[j]);
    }
    assert forall|i: int| 0 <= i < n implies #[trigger] s.topo@.contains(BlockId(i as u32)) by {
        let k = order.index_of(i as usize);
        assert(order.contains(i as usize));
        assert(s.topo@[k] == BlockId(i as u32));
    }
    if has_iface {
        let k = order.index_of(n as usize);
        assert(order.contains(n as usize));
        assert(s.topo@[k] == BlockId(u32::MAX));
    }
}

/// The cut connections of a schedule are the loop-closing ones, ascending and
/// without repetition, as long as connection numbers fit their width.
pub proof fn law_back_edges_ascend(
    n: int,
    has_iface: bool,
    g: GraphAnalysis,
    s: Schedule,
)
    requires
        schedule_ir(n, has_iface, g, s),
        forall|k: int|
            0 <= k < g.loop_closing@.len() ==> #[trigger] g.loop_closing@[k] <= u32::MAX,
    ensures
        forall|i: int, j: int|
            0 <= i < j < s.back_edges@.len() ==> s.back_edges@[i].0 < s.back_edges@[j].0,
        forall|k: int|
            0 <= k < s.back_edges@.len() ==> g.loop_closing@.contains(
                (#[trigger] s.back_edges@[k]).0 as usize,
            ),
        forall|k: int|
            0 <= k < g.loop_closing@.len() ==> s.back_edges@.contains(
                ConnectionId((#[trigger] g.loop_closing@[k]) as u32),
            ),
{
    let set = choose|set: Seq<usize>| #[trigger]
        ascending_set(g.loop_closing@, set) && same_connections(set, s.back_edges@);
    assert forall|k: int| 0 <= k < set.len() implies #[trigger] set[k] <= u32::MAX
        && g.loop_closing@.contains(set[k]) by {
        assert(set.contains(set[k]));
        let j = g.loop_closing@.index_of(set[k]);
        assert(g.loop_closing@[j] == set[k]);
    }
    assert forall|i: int, j: int| 0 <= i < j < s.back_edges@.len() implies s.back_edges@[i].0
        < s.back_edges@[j].0 by {
        assert(set[i] < set[j]);
        assert(s.back_edges@[i].0 == set[i] as u32 && s.back_edges@[j].0 == set[j] as u32);
    }
    assert forall|k: int| 0 <= k < g.loop_closing@.len() implies s.back_edges@.contains(
        ConnectionId((#[trigger] g.loop_closing@[k]) as u32),
    ) by {
        let c = g.loop_closing@[k];
        assert(g.loop_closing@.contains(c));
        assert(set.contains(c));
        let j = set.index_of(c);
        assert(s.back_edges@[j] == ConnectionId(c as u32));
    }
}

/// A lowered event keeps what fires it: a guard fires on rising, falling or all
/// crossings exactly if the event does, and times are the same times.
pub proof fn law_event_kind_is_kept<F: Scalar>(
    from: EventKindSpec<F>,
    sizes: Seq<u32>,
    kind: EventKind<F>,
)
    requires
        kind_of(from, sizes, kind),
    ensures
        from is ZeroCross <==> kind is ZeroCross,
        from is Condition <==> kind is Condition,
        from is ZeroCross ==> {
            &&& from->ZeroCross_direction is Rising <==> kind->ZeroCross_direction is Rising
            &&& from->ZeroCross_direction is Falling <==> kind->ZeroCross_direction is Falling
            &&& from->ZeroCross_direction is Both <==> kind->ZeroCross_direction is Both
            &&& kind->ZeroCross_guard.ops@.len() == from->ZeroCross_guard.nodes@.len()
            &&& kind->ZeroCross_guard.writes@.len() == 0
        },
        from is Condition ==> {
            &&& kind->Condition_guard.ops@.len() == from->Condition_guard.nodes@.len()
            &&& kind->Condition_guard.writes@.len() == 0
        },
        from is SchedulePeriodic ==> (kind matches EventKind::Schedule {
            times: ScheduleTimes::Periodic { period, phase },
        } && period == from->period && phase == from->phase),
        from is ScheduleFixed ==> (kind matches EventKind::Schedule {
            times: ScheduleTimes::Fixed(times),
        } && times@ == from->ScheduleFixed_0@),
{
}

/// Events that differ in direction are lowered to kinds that differ in direction.
pub proof fn law_directions_stay_apart<F: Scalar>(
    a: EventKindSpec<F>,
    b: EventKindSpec<F>,
    sizes: Seq<u32>,
    x: EventKind<F>,
    y: EventKind<F>,
)
    requires
        kind_of(a, sizes, x),
        kind_of(b, sizes, y),
        a is ZeroCross,
        b is ZeroCross,
        a->ZeroCross_direction != b->ZeroCross_direction,
    ensures
        x->ZeroCross_direction != y->ZeroCross_direction,
{
}

/// An event of the host keeps what fires it, as far as that is known, and is opaque:
/// it carries neither guard nor action.
pub proof fn law_host_event_is_kept<F: Scalar>(d: EventDescriptor<F>, i: int, e: Event<F>)
    requires
        opaque_event_of(d, i, e),
        0 <= i <= u32::MAX,
    ensures
        e.opaque,
        e.id.0 == i,
        e.effect.ops@.len() == 0,
        e.effect.writes@.len() == 0,
        d is ZeroCross <==> e.kind is ZeroCross,
        d is Condition <==> e.kind is Condition,
        d is ZeroCross ==> {
            &&& d->direction is Rising <==> e.kind->ZeroCross_direction is Rising
            &&& d->direction is Falling <==> e.kind->ZeroCross_direction is Falling
            &&& d->direction is Both <==> e.kind->ZeroCross_direction is Both
            &&& e.kind->ZeroCross_guard.ops@.len() == 0
        },
        d is Condition ==> e.kind->Condition_guard.ops@.len() == 0,
        d is SchedulePeriodic ==> (e.kind matches EventKind::Schedule {
            times: ScheduleTimes::Periodic { period, phase },
        } && period == d->period && phase == d->phase),
        d is ScheduleFixed ==> (e.kind matches EventKind::Schedule {
            times: ScheduleTimes::Fixed(times),
        } && times@ == d->times@),
{
}

/// A block has one role: it is a sink if it records, else a source if it has no inputs
/// to wait for, else dynamic if it has states, else algebraic.
pub proof fn law_roles(r: RoleFlags)
    ensures
        role_of(r) is Sink <==> r.is_rec,
        role_of(r) is Source <==> r.is_src && !r.is_rec,
        role_of(r) is Dynamic <==> r.is_dyn && !r.is_src && !r.is_rec,
        role_of(r) is Algebraic <==> !r.is_dyn && !r.is_src && !r.is_rec,
{
}

/// A lowered block carries what the block is made of: its widths, its parameters with
/// their values, its states with their initial values, its memory with its contents, and
/// its events in order, each with the targets that it writes.
pub proof fn law_lowered_block_is_complete<F: Scalar>(m: BlockModel<F>, id: BlockId, b: Block<F>)
    requires
        lowerable(m),
        leaf_ir(m, id, b),
        m.op_discrete is None,
        graph_of(m.alg_op) is Some,
    ensures
        b.id == id,
        b.name@ == b.kind_name@,
        b.name@ == (if m.op_kind_name is Some {
            m.op_kind_name->0@
        } else {
            m.kind_name@
        }),
        b.role is Sink <==> m.role.is_rec,
        b.ports.inputs@.len() == (if m.n_inputs as u32 > 0 {
            1nat
        } else {
            0nat
        }),
        m.n_inputs as u32 > 0 ==> b.ports.inputs@[0].size == m.n_inputs as u32,
        b.ports.outputs@.len() > 0 ==> b.ports.outputs@[0].size >= m.n_outputs as u32,
        m.initial_value is Some ==> b.state@.len() == m.initial_value->0@.len(),
        m.initial_value is None ==> b.state@.len() == 0,
        forall|i: int|
            #![trigger b.state@[i]]
            0 <= i < b.state@.len() ==> b.state@[i].init == m.initial_value->0@[i]
                && b.state@[i].id.0 == i as u32,
        b.memory@.len() == m.op_memory@.len(),
        forall|i: int|
            #![trigger b.memory@[i]]
            0 <= i < b.memory@.len() ==> b.memory@[i].init@ == m.op_memory@[i].init@
                && b.memory@[i].name@ == m.op_memory@[i].name@ && b.memory@[i].id.0 == i as u32
                && b.memory@[i].size == m.op_memory@[i].init@.len() as u32,
        b.events@.len() == m.op_events@.len(),
        forall|i: int|
            #![trigger b.events@[i]]
            0 <= i < b.events@.len() ==> {
                let (e, d) = (b.events@[i], m.op_events@[i]);
                &&& e.id.0 == i as u32
                &&& !e.opaque
                &&& d.kind is ZeroCross <==> e.kind is ZeroCross
                &&& d.kind is ZeroCross ==> {
                    &&& d.kind->ZeroCross_direction is Rising
                        <==> e.kind->ZeroCross_direction is Rising
                    &&& d.kind->ZeroCross_direction is Falling
                        <==> e.kind->ZeroCross_direction is Falling
                }
                &&& e.effect.ops@.len() == d.effect.nodes@.len()
                &&& forall|k: int|
                    #![trigger e.effect.writes@[k]]
                    0 <= k < e.effect.writes@.len() ==> (e.effect.writes@[k]
                        matches Write::MemoryWrite { slot, offset, src } && slot.0
                        == d.targets@[k].slot && offset == d.targets@[k].offset && src.0
                        == d.effect.outputs@[k])
            },
        graph_of(m.alg_op)->0 is Fixed ==> {
            let g = graph_of(m.alg_op)->0->Fixed_0;
            &&& b.params@.len() <= g.param_names@.len()
            &&& forall|i: int|
                #![trigger b.params@[i]]
                0 <= i < b.params@.len() ==> b.params@[i].name@ == g.param_names@[i]@
                    && b.params@[i].value == ParamValue::Scalar(g.param_defaults@[i])
        },
        graph_of(m.dyn_op) is None ==> b.regions.dyn_.ops@.len() == 0,
{
}

/// A block that cannot be lowered stands as a call: it reads all its inputs in order and
/// takes each of its outputs, in order, from its extern.
pub proof fn law_opaque_block_calls<F: Scalar>(
    m: BlockModel<F>,
    id: BlockId,
    ext: ExternId,
    b: Block<F>,
    d: ExternDecl,
)
    requires
        opaque_block_of(m, id, ext, b),
        extern_of(m, ext, d),
        m.n_inputs + m.n_outputs <= u32::MAX,
    ensures
        d.id == ext,
        d.name@ == m.kind_name@,
        d.arity_in == m.n_inputs,
        d.arity_out == m.n_outputs,
        b.id == id,
        b.state@.len() == 0,
        b.params@.len() == 0,
        b.memory@.len() == 0,
        m.n_outputs > 0 ==> b.regions.alg.ops@.len() == m.n_inputs + m.n_outputs,
        m.n_outputs > 0 ==> b.regions.alg.writes@.len() == m.n_outputs,
        forall|k: int|
            #![trigger b.regions.alg.writes@[k]]
            0 <= k < m.n_outputs ==> (b.regions.alg.writes@[k] matches Write::Output {
                port,
                elem,
                src,
            } && port == 0 && elem == k && (b.regions.alg.ops@[src.0 as int] matches Op::Call {
                id: called,
                args,
                out_idx,
            } && called == ext && out_idx == k && args@.len() == m.n_inputs && forall|j: int|
                0 <= j < args@.len() ==> b.regions.alg.ops@[(#[trigger] args@[j]).0 as int] == (
                Op::<F>::Input { port: 0, elem: j as u32 }))),
        b.events@.len() == m.events@.len(),
{
    let ops = b.regions.alg.ops@;
    assert forall|k: int| 0 <= k < m.n_outputs implies {
        let w = #[trigger] b.regions.alg.writes@[k];
        w matches Write::Output { port, elem, src } && port == 0 && elem == k && (
        ops[src.0 as int] matches Op::Call { id: called, args, out_idx } && called == ext
            && out_idx == k && args@.len() == m.n_inputs && forall|j: int|
            0 <= j < args@.len() ==> ops[(#[trigger] args@[j]).0 as int] == (Op::<F>::Input {
                port: 0,
                elem: j as u32,
            }))
    } by {
        let w = b.regions.alg.writes@[k];
        let src = w->Output_src;
        assert(src.0 == m.n_inputs + k);
    }
}

} // verus!
