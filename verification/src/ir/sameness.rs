//! When two pieces of IR are the same, field for field, and why lowering the same
//! model twice gives the same IR.

use vstd::prelude::*;

use crate::ir::builder::{
    built, effective_outputs, events_of, kind_of, lowers, single_port, LeafOps,
};
use crate::ir::graph::{EventKindSpec, Graph};
use crate::ir::schema::{
    Block, BlockId, Child, Connection, DagGroup, Event, EventKind, ExternId, Op, Param, ParamValue,
    Port, PortRef, Region, Scc, Schedule, ScheduleTimes, Subsystem,
};
use crate::ir::scope::{
    ascending_set, call_region, child_ir, connections_ir, externs_before, groups_ir, leaf_ir,
    leaf_of, lemma_child_of, lowerable, nested_name, opaque_block_of, opaque_events_of, port_ir,
    reference, same_connections, schedule_ir, scope_ir, subsystems_before, targets_ir,
};
use crate::model::{
    keys_of, BlockModel, ConnModel, EventDescriptor, GraphAnalysis, Level, PortModel, ScopeModel,
};
use crate::scalar::{decodes, Scalar};

verus! {

/// The numbers are equal, or both are what one bit pattern stands for.
pub open spec fn same_number<F: Scalar>(a: F, b: F) -> bool {
    a == b || exists|bits: u64| #[trigger] decodes(bits, a) && decodes(bits, b)
}

pub open spec fn same_op<F: Scalar>(a: Op<F>, b: Op<F>) -> bool {
    match a {
        Op::Const(x) => b matches Op::Const(y) && same_number(x, y),
        Op::Reduce { op, args } => b matches Op::Reduce { op: k, args: l } && op == k && args@
            == l@,
        Op::Dot { a: p, b: q } => b matches Op::Dot { a: s, b: t } && p@ == s@ && q@ == t@,
        Op::Lut1d { input, points, values, clamp } => b matches Op::Lut1d {
            input: i,
            points: p,
            values: v,
            clamp: c,
        } && input == i && points@ == p@ && values@ == v@ && clamp == c,
        Op::Call { id, args, out_idx } => b matches Op::Call { id: e, args: l, out_idx: o } && id
            == e && args@ == l@ && out_idx == o,
        _ => a == b,
    }
}

pub open spec fn same_region<F: Scalar>(a: Region<F>, b: Region<F>) -> bool {
    &&& a.ops@.len() == b.ops@.len()
    &&& forall|i: int| 0 <= i < a.ops@.len() ==> same_op(#[trigger] a.ops@[i], b.ops@[i])
    &&& a.writes@ == b.writes@
}

/// The ports have the same names and sizes.
pub open spec fn same_ports(a: Seq<Port>, b: Seq<Port>) -> bool {
    &&& a.len() == b.len()
    &&& forall|k: int|
        #![trigger a[k]]
        0 <= k < a.len() ==> a[k].name@ == b[k].name@ && a[k].size == b[k].size
}

pub open spec fn same_times<F>(a: ScheduleTimes<F>, b: ScheduleTimes<F>) -> bool {
    match a {
        ScheduleTimes::Fixed(x) => b matches ScheduleTimes::Fixed(y) && x@ == y@,
        ScheduleTimes::Periodic { period: _, phase: _ } => a == b,
    }
}

pub open spec fn same_kind<F: Scalar>(a: EventKind<F>, b: EventKind<F>) -> bool {
    match a {
        EventKind::ZeroCross { guard, direction } => b matches EventKind::ZeroCross {
            guard: g,
            direction: d,
        } && same_region(guard, g) && direction == d,
        EventKind::Schedule { times } => b matches EventKind::Schedule { times: t } && same_times(
            times,
            t,
        ),
        EventKind::Condition { guard } => b matches EventKind::Condition { guard: g }
            && same_region(guard, g),
    }
}

pub open spec fn same_event<F: Scalar>(a: Event<F>, b: Event<F>) -> bool {
    &&& a.id == b.id
    &&& same_kind(a.kind, b.kind)
    &&& same_region(a.effect, b.effect)
    &&& a.opaque == b.opaque
}

pub open spec fn same_events<F: Scalar>(a: Seq<Event<F>>, b: Seq<Event<F>>) -> bool {
    &&& a.len() == b.len()
    &&& forall|k: int| 0 <= k < a.len() ==> same_event(#[trigger] a[k], b[k])
}

pub open spec fn same_value<F>(a: ParamValue<F>, b: ParamValue<F>) -> bool {
    match a {
        ParamValue::Scalar(_) => a == b,
        ParamValue::Vector(x) => b matches ParamValue::Vector(y) && x@ == y@,
        ParamValue::Matrix { rows, cols, data } => b matches ParamValue::Matrix {
            rows: r,
            cols: c,
            data: d,
        } && rows == r && cols == c && data@ == d@,
    }
}

pub open spec fn same_params<F>(a: Seq<Param<F>>, b: Seq<Param<F>>) -> bool {
    &&& a.len() == b.len()
    &&& forall|k: int|
        #![trigger a[k]]
        0 <= k < a.len() ==> a[k].id == b[k].id && a[k].name@ == b[k].name@ && same_value(
            a[k].value,
            b[k].value,
        )
}

pub open spec fn same_block<F: Scalar>(a: Block<F>, b: Block<F>) -> bool {
    &&& a.id == b.id
    &&& a.name@ == b.name@
    &&& a.kind_name@ == b.kind_name@
    &&& a.role == b.role
    &&& same_ports(a.ports.inputs@, b.ports.inputs@)
    &&& same_ports(a.ports.outputs@, b.ports.outputs@)
    &&& same_params(a.params@, b.params@)
    &&& a.state@.len() == b.state@.len()
    &&& forall|k: int|
        #![trigger a.state@[k]]
        0 <= k < a.state@.len() ==> a.state@[k].id == b.state@[k].id && a.state@[k].name@
            == b.state@[k].name@ && a.state@[k].init == b.state@[k].init
    &&& a.memory@.len() == b.memory@.len()
    &&& forall|k: int|
        #![trigger a.memory@[k]]
        0 <= k < a.memory@.len() ==> a.memory@[k].id == b.memory@[k].id && a.memory@[k].name@
            == b.memory@[k].name@ && a.memory@[k].size == b.memory@[k].size && a.memory@[k].init@
            == b.memory@[k].init@
    &&& same_region(a.regions.alg, b.regions.alg)
    &&& same_region(a.regions.dyn_, b.regions.dyn_)
    &&& same_events(a.events@, b.events@)
}

pub open spec fn same_ref(a: PortRef, b: PortRef) -> bool {
    &&& a.block == b.block
    &&& a.port == b.port
    &&& match a.elems {
        None => b.elems is None,
        Some(x) => b.elems matches Some(y) && x@ == y@,
    }
}

pub open spec fn same_refs(a: Seq<PortRef>, b: Seq<PortRef>) -> bool {
    &&& a.len() == b.len()
    &&& forall|k: int| 0 <= k < a.len() ==> same_ref(#[trigger] a[k], b[k])
}

pub open spec fn same_wiring(a: Seq<Connection>, b: Seq<Connection>) -> bool {
    &&& a.len() == b.len()
    &&& forall|k: int|
        #![trigger a[k]]
        0 <= k < a.len() ==> a[k].id == b[k].id && same_ref(a[k].src, b[k].src) && same_refs(
            a[k].targets@,
            b[k].targets@,
        )
}

pub open spec fn same_groups(a: Seq<DagGroup>, b: Seq<DagGroup>) -> bool {
    &&& a.len() == b.len()
    &&& forall|k: int|
        #![trigger a[k]]
        0 <= k < a.len() ==> a[k].depth == b[k].depth && a[k].blocks@ == b[k].blocks@
}

pub open spec fn same_loops(a: Seq<Scc>, b: Seq<Scc>) -> bool {
    &&& a.len() == b.len()
    &&& forall|k: int|
        #![trigger a[k]]
        0 <= k < a.len() ==> a[k].blocks@ == b[k].blocks@ && a[k].back_edges@ == b[k].back_edges@
}

pub open spec fn same_schedule(a: Schedule, b: Schedule) -> bool {
    &&& a.topo@ == b.topo@
    &&& same_groups(a.groups@, b.groups@)
    &&& same_loops(a.sccs@, b.sccs@)
    &&& a.back_edges@ == b.back_edges@
}

pub open spec fn same_child<F: Scalar>(a: Child<F>, b: Child<F>) -> bool
    decreases a,
{
    match a {
        Child::Block(x) => b matches Child::Block(y) && same_block(x, y),
        Child::Subsystem(x) => b matches Child::Subsystem(y) && same_subsystem(x, y),
    }
}

/// The scopes agree in every field, down to the ops of the innermost blocks.
pub open spec fn same_subsystem<F: Scalar>(a: Subsystem<F>, b: Subsystem<F>) -> bool
    decreases a,
{
    &&& a.id == b.id
    &&& a.name@ == b.name@
    &&& same_ports(a.interface.inputs@, b.interface.inputs@)
    &&& same_ports(a.interface.outputs@, b.interface.outputs@)
    &&& a.children@.len() == b.children@.len()
    &&& forall|i: int|
        0 <= i < a.children@.len() ==> same_child(#[trigger] a.children@[i], b.children@[i])
    &&& same_wiring(a.connections@, b.connections@)
    &&& same_schedule(a.schedule, b.schedule)
}

proof fn lemma_ports(a: Seq<Port>, b: Seq<Port>, name: Seq<char>, width: u32)
    requires
        single_port(a, name, width),
        single_port(b, name, width),
    ensures
        same_ports(a, b),
{
}

proof fn lemma_ops<F: Scalar>(graph: Graph<F>, sizes: Seq<u32>, a: Region<F>, b: Region<F>)
    requires
        lowers(graph, sizes, a.ops@),
        lowers(graph, sizes, b.ops@),
        a.writes@ == b.writes@,
    ensures
        same_region(a, b),
{
    assert forall|i: int| 0 <= i < a.ops@.len() implies same_op(#[trigger] a.ops@[i], b.ops@[i]) by {
        let x = a.ops@[i];
        let y = b.ops@[i];
        match x {
            Op::Reduce { op, args } => {
                assert(args@ =~= y->Reduce_args@);
            },
            Op::Dot { a: p, b: q } => {
                assert(p@ =~= y->Dot_a@);
                assert(q@ =~= y->Dot_b@);
            },
            _ => {},
        }
    }
}

proof fn lemma_calls<F: Scalar>(
    inputs: u32,
    outputs: u32,
    ext: ExternId,
    a: Region<F>,
    b: Region<F>,
)
    requires
        call_region(inputs, outputs, ext, a),
        call_region(inputs, outputs, ext, b),
    ensures
        same_region(a, b),
{
    assert forall|i: int| 0 <= i < a.ops@.len() implies same_op(#[trigger] a.ops@[i], b.ops@[i]) by {
        if i < inputs {
            assert(b.ops@[i] == (Op::<F>::Input { port: 0, elem: i as u32 }));
        } else {
            let k = i - inputs;
            assert(a.writes@[k] == b.writes@[k]);
            assert(inputs + k == i);
            assert(a.ops@[i]->Call_args@ =~= b.ops@[i]->Call_args@);
        }
    }
    assert(a.writes@ =~= b.writes@);
}

proof fn lemma_kinds<F: Scalar>(
    spec_kind: EventKindSpec<F>,
    sizes: Seq<u32>,
    a: EventKind<F>,
    b: EventKind<F>,
)
    requires
        kind_of(spec_kind, sizes, a),
        kind_of(spec_kind, sizes, b),
    ensures
        same_kind(a, b),
{
    match spec_kind {
        EventKindSpec::ZeroCross { guard, direction } => {
            let (x, y) = (a->ZeroCross_guard, b->ZeroCross_guard);
            assert(x.writes@ =~= y.writes@);
            lemma_ops(guard, sizes, x, y);
        },
        EventKindSpec::Condition { guard } => {
            let (x, y) = (a->Condition_guard, b->Condition_guard);
            assert(x.writes@ =~= y.writes@);
            lemma_ops(guard, sizes, x, y);
        },
        _ => {},
    }
}

proof fn lemma_events<F: Scalar>(
    ops: LeafOps<F>,
    sizes: Seq<u32>,
    a: Seq<Event<F>>,
    b: Seq<Event<F>>,
)
    requires
        events_of(ops.chosen()->Some_0.2, sizes, a),
        events_of(ops.chosen()->Some_0.2, sizes, b),
    ensures
        same_events(a, b),
{
    let specs = ops.chosen()->Some_0.2;
    assert forall|k: int| 0 <= k < a.len() implies same_event(#[trigger] a[k], b[k]) by {
        assert(a[k].id == b[k].id);
        lemma_kinds(specs[k].kind, sizes, a[k].kind, b[k].kind);
        assert(a[k].effect.writes@ =~= b[k].effect.writes@);
        lemma_ops(specs[k].effect, sizes, a[k].effect, b[k].effect);
    }
}

/// Two lowerings of the same host events are the same.
pub proof fn lemma_host_events<F: Scalar>(
    ds: Seq<EventDescriptor<F>>,
    a: Seq<Event<F>>,
    b: Seq<Event<F>>,
)
    requires
        opaque_events_of(ds, a),
        opaque_events_of(ds, b),
    ensures
        same_events(a, b),
{
    assert forall|k: int| 0 <= k < a.len() implies same_event(#[trigger] a[k], b[k]) by {
        let (x, y) = (a[k], b[k]);
        assert(x.id == y.id);
        assert(x.effect.writes@ =~= y.effect.writes@);
        match ds[k] {
            EventDescriptor::ZeroCross { direction } => {
                assert(x.kind->ZeroCross_guard.writes@ =~= y.kind->ZeroCross_guard.writes@);
            },
            EventDescriptor::Condition => {
                assert(x.kind->Condition_guard.writes@ =~= y.kind->Condition_guard.writes@);
            },
            _ => {},
        }
    }
}

proof fn lemma_leaves<F: Scalar>(m: BlockModel<F>, id: BlockId, a: Block<F>, b: Block<F>)
    requires
        lowerable(m),
        leaf_ir(m, id, a),
        leaf_ir(m, id, b),
    ensures
        same_block(a, b),
{
    let (inputs, declared) = (m.n_inputs as u32, m.n_outputs as u32);
    let p = choose|ops: LeafOps<F>| #[trigger]
        leaf_of(m, ops) && built(ops, m.role, id, inputs, declared, a);
    let q = choose|ops: LeafOps<F>| #[trigger]
        leaf_of(m, ops) && built(ops, m.role, id, inputs, declared, b);
    let (graph, memory, events) = p.chosen()->Some_0;
    let (other, _, _) = q.chosen()->Some_0;
    assert(q.chosen()->Some_0.1 == memory);
    assert(q.chosen()->Some_0.2 == events);
    let sizes = seq![inputs];
    lemma_events(p, sizes, a.events@, b.events@);
    assert(graph.outputs@.len() == other.outputs@.len());
    let outputs = effective_outputs(declared, graph);
    lemma_ports(a.ports.inputs@, b.ports.inputs@, "in"@, inputs);
    lemma_ports(a.ports.outputs@, b.ports.outputs@, "out"@, outputs);
    assert(same_region(a.regions.alg, b.regions.alg)) by {
        let (x, y) = (a.regions.alg, b.regions.alg);
        match p.lut1d {
            Some(_) => {},
            None => {
                assert(x.writes@ =~= y.writes@);
                if graph == other {
                    lemma_ops(graph, sizes, x, y);
                }
            },
        }
    }
    assert(same_region(a.regions.dyn_, b.regions.dyn_)) by {
        let (x, y) = (a.regions.dyn_, b.regions.dyn_);
        assert(x.writes@ =~= y.writes@);
        match p.dyn_ {
            Some(rg) => {
                lemma_ops(rg.resolved()->Some_0, sizes, x, y);
            },
            None => {},
        }
    }
}

proof fn lemma_opaque<F: Scalar>(
    m: BlockModel<F>,
    id: BlockId,
    ext: ExternId,
    a: Block<F>,
    b: Block<F>,
)
    requires
        opaque_block_of(m, id, ext, a),
        opaque_block_of(m, id, ext, b),
    ensures
        same_block(a, b),
{
    let (inputs, outputs) = (m.n_inputs as u32, m.n_outputs as u32);
    if outputs > 0 {
        lemma_calls(inputs, outputs, ext, a.regions.alg, b.regions.alg);
    } else {
        assert(a.regions.alg.writes@ =~= b.regions.alg.writes@);
    }
    assert(a.regions.dyn_.writes@ =~= b.regions.dyn_.writes@);
    lemma_host_events(m.events@, a.events@, b.events@);
}

proof fn lemma_refs(p: PortModel, at: BlockId, a: PortRef, b: PortRef)
    requires
        port_ir(p, at, a),
        port_ir(p, at, b),
    ensures
        same_ref(a, b),
{
}

proof fn lemma_targets(
    keys: Seq<u64>,
    iface: Option<u64>,
    targets: Seq<PortModel>,
    a: Seq<PortRef>,
    b: Seq<PortRef>,
)
    requires
        targets_ir(keys, iface, targets, a),
        targets_ir(keys, iface, targets, b),
    ensures
        same_refs(a, b),
    decreases targets.len(),
{
    if targets.len() > 0 {
        match reference(keys, iface, targets.last().block) {
            None => {
                lemma_targets(keys, iface, targets.drop_last(), a, b);
            },
            Some(at) => {
                lemma_targets(keys, iface, targets.drop_last(), a.drop_last(), b.drop_last());
                lemma_refs(targets.last(), at, a.last(), b.last());
                assert forall|k: int| 0 <= k < a.len() implies same_ref(#[trigger] a[k], b[k]) by {
                    if k < a.len() - 1 {
                        assert(same_ref(a.drop_last()[k], b.drop_last()[k]));
                    }
                }
            },
        }
    }
}

proof fn lemma_wiring(
    keys: Seq<u64>,
    iface: Option<u64>,
    conns: Seq<ConnModel>,
    a: Seq<Connection>,
    b: Seq<Connection>,
)
    requires
        connections_ir(keys, iface, conns, a),
        connections_ir(keys, iface, conns, b),
    ensures
        same_wiring(a, b),
    decreases conns.len(),
{
    if conns.len() > 0 {
        match reference(keys, iface, conns.last().source.block) {
            None => {
                lemma_wiring(keys, iface, conns.drop_last(), a, b);
            },
            Some(at) => {
                lemma_wiring(keys, iface, conns.drop_last(), a.drop_last(), b.drop_last());
                lemma_refs(conns.last().source, at, a.last().src, b.last().src);
                lemma_targets(
                    keys,
                    iface,
                    conns.last().targets@,
                    a.last().targets@,
                    b.last().targets@,
                );
                assert(a.last().id == b.last().id);
                assert forall|k: int|
                    #![trigger a[k]]
                    0 <= k < a.len() implies a[k].id == b[k].id && same_ref(a[k].src, b[k].src)
                    && same_refs(a[k].targets@, b[k].targets@) by {
                    if k < a.len() - 1 {
                        assert(a.drop_last()[k] == a[k] && b.drop_last()[k] == b[k]);
                    }
                }
            },
        }
    }
}

proof fn lemma_groups(
    n: int,
    has_iface: bool,
    dag: Seq<Level>,
    a: Seq<DagGroup>,
    b: Seq<DagGroup>,
)
    requires
        groups_ir(n, has_iface, dag, a),
        groups_ir(n, has_iface, dag, b),
    ensures
        same_groups(a, b),
    decreases dag.len(),
{
    if dag.len() > 0 {
        if dag.last().blocks@.len() == 0 {
            lemma_groups(n, has_iface, dag.drop_last(), a, b);
        } else {
            lemma_groups(n, has_iface, dag.drop_last(), a.drop_last(), b.drop_last());
            assert forall|k: int|
                #![trigger a[k]]
                0 <= k < a.len() implies a[k].depth == b[k].depth && a[k].blocks@ == b[k].blocks@ by {
                if k < a.len() - 1 {
                    assert(a.drop_last()[k] == a[k] && b.drop_last()[k] == b[k]);
                }
            }
        }
    }
}

/// Ascending lists of the same elements are the same list.
#[verifier::spinoff_prover]
proof fn lemma_ascending(a: Seq<usize>, b: Seq<usize>)
    requires
        forall|i: int, j: int| 0 <= i < j < a.len() ==> a[i] < a[j],
        forall|i: int, j: int| 0 <= i < j < b.len() ==> b[i] < b[j],
        forall|c: usize| #[trigger] a.contains(c) <==> b.contains(c),
    ensures
        a == b,
    decreases a.len(),
{
    if a.len() == 0 {
        if b.len() > 0 {
            assert(b.contains(b[0]));
            assert(a.contains(b[0]));
        }
        assert(a =~= b);
    } else {
        assert(a.contains(a.last()));
        let k = b.index_of(a.last());
        assert(b[k] == a.last());
        assert(b.contains(b.last()));
        assert(a.contains(b.last()));
        let j = a.index_of(b.last());
        assert(a[j] == b.last());
        assert(a.last() == b.last());
        let (x, y) = (a.drop_last(), b.drop_last());
        assert forall|c: usize| #[trigger] x.contains(c) <==> y.contains(c) by {
            if x.contains(c) {
                let i = x.index_of(c);
                assert(a[i] == c);
                assert(a.contains(c));
                assert(b.contains(c));
                let l = b.index_of(c);
                assert(b[l] == c);
                assert(y[l] == c);
            }
            if y.contains(c) {
                let i = y.index_of(c);
                assert(b[i] == c);
                assert(b.contains(c));
                assert(a.contains(c));
                let l = a.index_of(c);
                assert(a[l] == c);
                assert(x[l] == c);
            }
        }
        lemma_ascending(x, y);
        assert(a =~= x.push(a.last()));
        assert(b =~= y.push(b.last()));
    }
}

proof fn lemma_schedules(n: int, has_iface: bool, g: GraphAnalysis, a: Schedule, b: Schedule)
    requires
        schedule_ir(n, has_iface, g, a),
        schedule_ir(n, has_iface, g, b),
    ensures
        same_schedule(a, b),
{
    lemma_groups(n, has_iface, g.dag@, a.groups@, b.groups@);
    assert forall|k: int|
        #![trigger a.sccs@[k]]
        0 <= k < a.sccs@.len() implies a.sccs@[k].blocks@ == b.sccs@[k].blocks@
        && a.sccs@[k].back_edges@ == b.sccs@[k].back_edges@ by {
        assert(b.sccs@[k].blocks@ == a.sccs@[k].blocks@);
        assert(a.sccs@[k].back_edges@ =~= b.sccs@[k].back_edges@);
    }
    let p = choose|set: Seq<usize>| #[trigger]
        ascending_set(g.loop_closing@, set) && same_connections(set, a.back_edges@);
    let q = choose|set: Seq<usize>| #[trigger]
        ascending_set(g.loop_closing@, set) && same_connections(set, b.back_edges@);
    assert forall|c: usize| #[trigger] p.contains(c) <==> q.contains(c) by {
        assert(g.loop_closing@.contains(c) <==> p.contains(c));
        assert(g.loop_closing@.contains(c) <==> q.contains(c));
    }
    lemma_ascending(p, q);
    assert(a.back_edges@ =~= b.back_edges@);
}

/// Two lowerings of one block, at the same place and with the same numbers before
/// it, are the same.
#[verifier::spinoff_prover]
pub proof fn lemma_same_child<F: Scalar>(
    m: BlockModel<F>,
    i: int,
    scope: Seq<char>,
    ids: int,
    exts: int,
    a: Child<F>,
    b: Child<F>,
)
    requires
        child_ir(m, i, scope, ids, exts, a),
        child_ir(m, i, scope, ids, exts, b),
    ensures
        same_child(a, b),
    decreases m, 0nat,
{
    reveal(child_ir);
    match m.inner {
        Some(s) => {
            let (x, y) = (a->Subsystem_0, b->Subsystem_0);
            assert(x.id == y.id);
            lemma_ports(x.interface.inputs@, y.interface.inputs@, "in"@, m.n_inputs as u32);
            lemma_ports(x.interface.outputs@, y.interface.outputs@, "out"@, m.n_outputs as u32);
            lemma_same_scope(*s, nested_name(scope, i), ids + 1, exts, x, y);
        },
        None => {
            let (x, y) = (a->Block_0, b->Block_0);
            if lowerable(m) {
                lemma_leaves(m, BlockId(i as u32), x, y);
            } else {
                lemma_opaque(m, BlockId(i as u32), ExternId(exts as u32), x, y);
            }
        },
    }
}

/// Two lowerings of one scope under one number and one interface are the same.
#[verifier::spinoff_prover]
#[verifier::rlimit(40)]
pub proof fn lemma_same_scope<F: Scalar>(
    s: ScopeModel<F>,
    name: Seq<char>,
    ids: int,
    exts: int,
    a: Subsystem<F>,
    b: Subsystem<F>,
)
    requires
        scope_ir(s, name, ids, exts, a),
        scope_ir(s, name, ids, exts, b),
        a.id == b.id,
        same_ports(a.interface.inputs@, b.interface.inputs@),
        same_ports(a.interface.outputs@, b.interface.outputs@),
    ensures
        same_subsystem(a, b),
    decreases s, 0nat,
{
    lemma_wiring(keys_of(s.blocks@), s.interface, s.connections@, a.connections@, b.connections@);
    lemma_schedules(
        s.blocks@.len() as int,
        s.interface is Some,
        s.analysis,
        a.schedule,
        b.schedule,
    );
    assert forall|i: int| 0 <= i < a.children@.len() implies same_child(
        #[trigger] a.children@[i],
        b.children@[i],
    ) by {
        lemma_child_of(s, name, ids, exts, a, i);
        lemma_child_of(s, name, ids, exts, b, i);
        lemma_same_child(
            s.blocks@[i],
            i,
            name,
            ids + subsystems_before(s.blocks@, i),
            exts + externs_before(s.blocks@, i),
            a.children@[i],
            b.children@[i],
        );
    }
}

} // verus!
