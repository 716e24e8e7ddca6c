//! What the scheduler is given of a system: connections between blocks, and the
//! edges between their single ports.

use vstd::prelude::*;

use crate::model::{ConnModel, PortModel};
use crate::simulation::runtime::PortEdge;

verus! {

/// Number of a block: the last position of its key.
pub open spec fn block_index(blocks: Seq<u64>, key: u64) -> Option<usize>
    decreases blocks.len(),
{
    if blocks.len() == 0 {
        None
    } else if blocks.last() == key {
        Some((blocks.len() - 1) as usize)
    } else {
        block_index(blocks.drop_last(), key)
    }
}

/// Number of a block.
pub fn index_of(blocks: &Vec<u64>, key: u64) -> (r: Option<usize>)
    ensures
        r == block_index(blocks@, key),
        r matches Some(i) ==> i < blocks@.len() && blocks@[i as int] == key,
{
    let mut i: usize = blocks.len();
    assert(blocks@.take(i as int) =~= blocks@);
    while i > 0
        invariant
            i <= blocks@.len(),
            block_index(blocks@, key) == block_index(blocks@.take(i as int), key),
        decreases i,
    {
        assert(blocks@.take(i as int).drop_last() =~= blocks@.take(i - 1));
        if blocks[i - 1] == key {
            return Some(i - 1);
        }
        i -= 1;
    }
    None
}

/// Connections between blocks that the first `k` targets of connection `conn` make.
pub open spec fn target_specs(
    blocks: Seq<u64>,
    source: u64,
    targets: Seq<PortModel>,
    conn: usize,
    k: int,
) -> Seq<(usize, usize, usize)>
    decreases k,
{
    if k <= 0 {
        Seq::empty()
    } else {
        let before = target_specs(blocks, source, targets, conn, k - 1);
        match (block_index(blocks, source), block_index(blocks, targets[k - 1].block)) {
            (Some(si), Some(ti)) => before.push((si, ti, conn)),
            _ => before,
        }
    }
}

/// Connections between blocks that the first `k` connections make: source, target
/// and number of the connection. Ends outside of the system are left out.
pub open spec fn conn_specs(
    blocks: Seq<u64>,
    conns: Seq<ConnModel>,
    k: int,
) -> Seq<(usize, usize, usize)>
    decreases k,
{
    if k <= 0 {
        Seq::empty()
    } else {
        let c = conns[k - 1];
        conn_specs(blocks, conns, k - 1) + target_specs(
            blocks,
            c.source.block,
            c.targets@,
            (k - 1) as usize,
            c.targets@.len() as int,
        )
    }
}

/// Edges that the first `k` pairs of elements make.
pub open spec fn pair_edges(
    src: usize,
    outs: Seq<usize>,
    tgt: usize,
    ins: Seq<usize>,
    k: int,
) -> Seq<PortEdge>
    decreases k,
{
    if k <= 0 {
        Seq::empty()
    } else {
        pair_edges(src, outs, tgt, ins, k - 1).push(
            PortEdge { src, out_port: outs[k - 1], tgt, in_port: ins[k - 1] },
        )
    }
}

/// The smaller of two lengths.
pub open spec fn shorter(a: nat, b: nat) -> int {
    if a <= b {
        a as int
    } else {
        b as int
    }
}

/// Edges that the first `k` targets of a connection make.
pub open spec fn target_edges(
    blocks: Seq<u64>,
    source: PortModel,
    targets: Seq<PortModel>,
    k: int,
) -> Seq<PortEdge>
    decreases k,
{
    if k <= 0 {
        Seq::empty()
    } else {
        let before = target_edges(blocks, source, targets, k - 1);
        let t = targets[k - 1];
        match (block_index(blocks, source.block), block_index(blocks, t.block)) {
            (Some(src), Some(tgt)) => before + pair_edges(
                src,
                source.indices@,
                tgt,
                t.indices@,
                shorter(source.indices@.len(), t.indices@.len()),
            ),
            _ => before,
        }
    }
}

/// Edges between single ports that the first `k` connections make. Ends outside of
/// the system are left out; surplus elements of the wider end too.
pub open spec fn port_edges(blocks: Seq<u64>, conns: Seq<ConnModel>, k: int) -> Seq<PortEdge>
    decreases k,
{
    if k <= 0 {
        Seq::empty()
    } else {
        let c = conns[k - 1];
        port_edges(blocks, conns, k - 1) + target_edges(
            blocks,
            c.source,
            c.targets@,
            c.targets@.len() as int,
        )
    }
}

fn push_specs(
    out: &mut Vec<(usize, usize, usize)>,
    blocks: &Vec<u64>,
    conn: &ConnModel,
    number: usize,
)
    ensures
        final(out)@ == old(out)@ + target_specs(
            blocks@,
            conn.source.block,
            conn.targets@,
            number,
            conn.targets@.len() as int,
        ),
{
    let ghost before = out@;
    let si: Option<usize> = index_of(blocks, conn.source.block);
    let mut k: usize = 0;
    assert(before + target_specs(blocks@, conn.source.block, conn.targets@, number, 0) =~= before);
    while k < conn.targets.len()
        invariant
            k <= conn.targets@.len(),
            si == block_index(blocks@, conn.source.block),
            out@ == before + target_specs(
                blocks@,
                conn.source.block,
                conn.targets@,
                number,
                k as int,
            ),
        decreases conn.targets@.len() - k,
    {
        let ti: Option<usize> = index_of(blocks, conn.targets[k].block);
        let ghost prior = target_specs(
            blocks@,
            conn.source.block,
            conn.targets@,
            number,
            k as int,
        );
        if let (Some(s), Some(t)) = (si, ti) {
            out.push((s, t, number));
            assert((before + prior).push((s, t, number)) =~= before + prior.push((s, t, number)));
        }
        k += 1;
    }
}

fn push_edges(out: &mut Vec<PortEdge>, blocks: &Vec<u64>, conn: &ConnModel)
    ensures
        final(out)@ == old(out)@ + target_edges(
            blocks@,
            conn.source,
            conn.targets@,
            conn.targets@.len() as int,
        ),
{
    let ghost before = out@;
    let src: Option<usize> = index_of(blocks, conn.source.block);
    let outs: &Vec<usize> = &conn.source.indices;
    let mut k: usize = 0;
    assert(before + target_edges(blocks@, conn.source, conn.targets@, 0) =~= before);
    while k < conn.targets.len()
        invariant
            k <= conn.targets@.len(),
            src == block_index(blocks@, conn.source.block),
            *outs == conn.source.indices,
            out@ == before + target_edges(blocks@, conn.source, conn.targets@, k as int),
        decreases conn.targets@.len() - k,
    {
        let ghost prior = target_edges(blocks@, conn.source, conn.targets@, k as int);
        let tgt: Option<usize> = index_of(blocks, conn.targets[k].block);
        if let (Some(s), Some(t)) = (src, tgt) {
            let ins: &Vec<usize> = &conn.targets[k].indices;
            let count: usize = if outs.len() <= ins.len() {
                outs.len()
            } else {
                ins.len()
            };
            let mut j: usize = 0;
            let ghost part = out@;
            assert(part + pair_edges(s, outs@, t, ins@, 0) =~= part);
            while j < count
                invariant
                    j <= count,
                    count <= outs@.len(),
                    count <= ins@.len(),
                    out@ == part + pair_edges(s, outs@, t, ins@, j as int),
                decreases count - j,
            {
                let edge: PortEdge = PortEdge { src: s, out_port: outs[j], tgt: t, in_port: ins[j] };
                out.push(edge);
                assert((part + pair_edges(s, outs@, t, ins@, j as int)).push(edge) =~= part
                    + pair_edges(s, outs@, t, ins@, j as int).push(edge));
                j += 1;
            }
            assert((before + prior) + pair_edges(s, outs@, t, ins@, count as int) =~= before + (
            prior + pair_edges(s, outs@, t, ins@, count as int)));
        }
        k += 1;
    }
}

/// What the scheduler is given: the connections between blocks, and the edges
/// between their single ports.
pub fn assemble_graph_from(blocks: &Vec<u64>, conns: &Vec<ConnModel>) -> (r: (
    Vec<(usize, usize, usize)>,
    Vec<PortEdge>,
))
    ensures
        r.0@ == conn_specs(blocks@, conns@, conns@.len() as int),
        r.1@ == port_edges(blocks@, conns@, conns@.len() as int),
{
    let mut specs: Vec<(usize, usize, usize)> = Vec::new();
    let mut edges: Vec<PortEdge> = Vec::new();
    let mut k: usize = 0;
    while k < conns.len()
        invariant
            k <= conns@.len(),
            specs@ == conn_specs(blocks@, conns@, k as int),
            edges@ == port_edges(blocks@, conns@, k as int),
        decreases conns@.len() - k,
    {
        push_specs(&mut specs, blocks, &conns[k], k);
        push_edges(&mut edges, blocks, &conns[k]);
        k += 1;
    }
    (specs, edges)
}

/// Blocks that a connection names: its source, then its targets.
pub open spec fn named_by(conn: ConnModel) -> Seq<u64> {
    seq![conn.source.block] + conn.targets@.map_values(|t: PortModel| t.block)
}

/// Blocks that the first `k` connections name.
pub open spec fn named_by_all(conns: Seq<ConnModel>, k: int) -> Seq<u64>
    decreases k,
{
    if k <= 0 {
        Seq::empty()
    } else {
        named_by_all(conns, k - 1) + named_by(conns[k - 1])
    }
}

/// A block is not among `blocks`.
pub open spec fn outside(blocks: Seq<u64>) -> spec_fn(u64) -> bool {
    |b: u64| !blocks.contains(b)
}

fn push_outside(out: &mut Vec<u64>, blocks: &Vec<u64>, key: u64)
    ensures
        final(out)@ == old(out)@ + seq![key].filter(outside(blocks@)),
{
    let ghost one = seq![key];
    assert(one.drop_last() =~= Seq::<u64>::empty());
    reveal_with_fuel(Seq::filter, 2);
    match index_of(blocks, key) {
        None => {
            proof {
                if blocks@.contains(key) {
                    lemma_block_index_found(blocks@, key);
                }
                assert(one.filter(outside(blocks@)) =~= one);
            }
            out.push(key);
            assert(out@ =~= old(out)@ + one);
        },
        Some(i) => {
            assert(blocks@.contains(blocks@[i as int]));
            assert(!outside(blocks@)(one.last()));
            assert(one.filter(outside(blocks@)) =~= Seq::<u64>::empty());
            assert(out@ =~= old(out)@ + Seq::<u64>::empty());
        },
    }
}

/// The blocks that connections name and that are not among `blocks`, once for each
/// time they are named.
pub fn unmanaged_blocks(blocks: &Vec<u64>, conns: &Vec<ConnModel>) -> (r: Vec<u64>)
    ensures
        r@ == named_by_all(conns@, conns@.len() as int).filter(outside(blocks@)),
{
    let mut r: Vec<u64> = Vec::new();
    let ghost keep = outside(blocks@);
    let mut k: usize = 0;
    assert(Seq::<u64>::empty().filter(keep) =~= Seq::empty()) by {
        reveal(Seq::filter);
    }
    while k < conns.len()
        invariant
            k <= conns@.len(),
            keep == outside(blocks@),
            r@ == named_by_all(conns@, k as int).filter(keep),
        decreases conns@.len() - k,
    {
        let conn: &ConnModel = &conns[k];
        let ghost before = named_by_all(conns@, k as int);
        push_outside(&mut r, blocks, conn.source.block);
        let ghost first = before + seq![conn.source.block];
        proof {
            Seq::filter_distributes_over_add(before, seq![conn.source.block], keep);
        }
        let ghost names = conn.targets@.map_values(|t: PortModel| t.block);
        let mut j: usize = 0;
        assert(first + names.take(0) =~= first);
        while j < conn.targets.len()
            invariant
                j <= conn.targets@.len(),
                keep == outside(blocks@),
                names == conn.targets@.map_values(|t: PortModel| t.block),
                r@ == (first + names.take(j as int)).filter(keep),
            decreases conn.targets@.len() - j,
        {
            let key: u64 = conn.targets[j].block;
            push_outside(&mut r, blocks, key);
            proof {
                Seq::filter_distributes_over_add(first + names.take(j as int), seq![key], keep);
                assert((first + names.take(j as int)) + seq![key] =~= first + names.take(j + 1));
            }
            j += 1;
        }
        assert(first + names.take(j as int) =~= before + named_by(*conn));
        k += 1;
    }
    r
}

proof fn lemma_block_index_found(blocks: Seq<u64>, key: u64)
    requires
        blocks.contains(key),
    ensures
        block_index(blocks, key) is Some,
    decreases blocks.len(),
{
    if blocks.last() != key {
        let i = choose|i: int| 0 <= i < blocks.len() && blocks[i] == key;
        assert(blocks.drop_last()[i] == key);
        lemma_block_index_found(blocks.drop_last(), key);
    }
}

proof fn lemma_block_index_bound(blocks: Seq<u64>, key: u64)
    ensures
        block_index(blocks, key) matches Some(i) ==> i < blocks.len() && (blocks.len() <= usize::MAX
            ==> blocks[i as int] == key),
    decreases blocks.len(),
{
    if blocks.len() > 0 && blocks.last() != key {
        lemma_block_index_bound(blocks.drop_last(), key);
    }
}

/// Every connection that the scheduler is given is between blocks of the system,
/// and belongs to one of the connections.
pub proof fn law_specs_are_inside(blocks: Seq<u64>, conns: Seq<ConnModel>, k: int)
    requires
        0 <= k <= conns.len(),
        blocks.len() <= usize::MAX,
        conns.len() <= usize::MAX,
    ensures
        forall|i: int|
            0 <= i < conn_specs(blocks, conns, k).len() ==> {
                let s = #[trigger] conn_specs(blocks, conns, k)[i];
                s.0 < blocks.len() && s.1 < blocks.len() && s.2 < k
            },
    decreases k,
{
    if k > 0 {
        law_specs_are_inside(blocks, conns, k - 1);
        let c = conns[k - 1];
        lemma_target_specs_inside(
            blocks,
            c.source.block,
            c.targets@,
            (k - 1) as usize,
            c.targets@.len() as int,
        );
        let before = conn_specs(blocks, conns, k - 1);
        let more = target_specs(
            blocks,
            c.source.block,
            c.targets@,
            (k - 1) as usize,
            c.targets@.len() as int,
        );
        let all = conn_specs(blocks, conns, k);
        assert forall|i: int| 0 <= i < all.len() implies {
            let s = #[trigger] all[i];
            s.0 < blocks.len() && s.1 < blocks.len() && s.2 < k
        } by {
            if i < before.len() {
                assert(all[i] == before[i]);
            } else {
                assert(all[i] == more[i - before.len()]);
            }
        }
    }
}

proof fn lemma_target_specs_inside(
    blocks: Seq<u64>,
    source: u64,
    targets: Seq<PortModel>,
    conn: usize,
    k: int,
)
    requires
        0 <= k <= targets.len(),
        blocks.len() <= usize::MAX,
    ensures
        forall|i: int|
            0 <= i < target_specs(blocks, source, targets, conn, k).len() ==> {
                let s = #[trigger] target_specs(blocks, source, targets, conn, k)[i];
                s.0 < blocks.len() && s.1 < blocks.len() && s.2 == conn
            },
    decreases k,
{
    if k > 0 {
        lemma_target_specs_inside(blocks, source, targets, conn, k - 1);
        lemma_block_index_bound(blocks, source);
        lemma_block_index_bound(blocks, targets[k - 1].block);
        let before = target_specs(blocks, source, targets, conn, k - 1);
        let all = target_specs(blocks, source, targets, conn, k);
        assert forall|i: int| 0 <= i < all.len() implies {
            let s = #[trigger] all[i];
            s.0 < blocks.len() && s.1 < blocks.len() && s.2 == conn
        } by {
            if i < before.len() {
                assert(all[i] == before[i]);
            }
        }
    }
}

proof fn lemma_block_index_missing(blocks: Seq<u64>, key: u64)
    requires
        !blocks.contains(key),
    ensures
        block_index(blocks, key) is None,
    decreases blocks.len(),
{
    if blocks.len() > 0 {
        assert(blocks.contains(blocks[blocks.len() - 1]));
        assert forall|i: int| 0 <= i < blocks.len() - 1 implies blocks.drop_last()[i] != key by {
            assert(blocks[i] != key);
        }
        lemma_block_index_missing(blocks.drop_last(), key);
    }
}

/// No target of the connection is reached from inside: its source is outside of the
/// system, or all of its targets are.
pub open spec fn ends_outside(blocks: Seq<u64>, c: ConnModel) -> bool {
    ||| !blocks.contains(c.source.block)
    ||| forall|j: int|
        0 <= j < c.targets@.len() ==> !blocks.contains((#[trigger] c.targets@[j]).block)
}

proof fn lemma_outside_targets(blocks: Seq<u64>, c: ConnModel, number: usize, k: int)
    requires
        ends_outside(blocks, c),
        0 <= k <= c.targets@.len(),
    ensures
        target_specs(blocks, c.source.block, c.targets@, number, k).len() == 0,
        target_edges(blocks, c.source, c.targets@, k).len() == 0,
    decreases k,
{
    if k > 0 {
        lemma_outside_targets(blocks, c, number, k - 1);
        if !blocks.contains(c.source.block) {
            lemma_block_index_missing(blocks, c.source.block);
        } else {
            lemma_block_index_missing(blocks, c.targets@[k - 1].block);
        }
    }
}

/// The connections from number `i` on are numbered one higher.
pub open spec fn numbered_past(
    specs: Seq<(usize, usize, usize)>,
    i: int,
) -> Seq<(usize, usize, usize)> {
    specs.map_values(
        |s: (usize, usize, usize)|
            if s.2 >= i {
                (s.0, s.1, (s.2 + 1) as usize)
            } else {
                s
            },
    )
}

proof fn lemma_targets_numbered(
    blocks: Seq<u64>,
    source: u64,
    targets: Seq<PortModel>,
    number: usize,
    i: int,
    k: int,
)
    requires
        number < usize::MAX,
    ensures
        numbered_past(target_specs(blocks, source, targets, number, k), i) == target_specs(
            blocks,
            source,
            targets,
            if number >= i {
                (number + 1) as usize
            } else {
                number
            },
            k,
        ),
    decreases k,
{
    if k > 0 {
        lemma_targets_numbered(blocks, source, targets, number, i, k - 1);
    }
    let other: usize = if number >= i {
        (number + 1) as usize
    } else {
        number
    };
    assert(numbered_past(target_specs(blocks, source, targets, number, k), i) =~= target_specs(
        blocks,
        source,
        targets,
        other,
        k,
    ));
}

proof fn lemma_outside_insert(
    blocks: Seq<u64>,
    conns: Seq<ConnModel>,
    i: int,
    c: ConnModel,
    k: int,
)
    requires
        0 <= i <= conns.len(),
        0 <= k <= conns.len() < usize::MAX,
        ends_outside(blocks, c),
    ensures
        k <= i ==> conn_specs(blocks, conns.insert(i, c), k) == numbered_past(
            conn_specs(blocks, conns, k),
            i,
        ) && port_edges(blocks, conns.insert(i, c), k) == port_edges(blocks, conns, k),
        k >= i ==> conn_specs(blocks, conns.insert(i, c), k + 1) == numbered_past(
            conn_specs(blocks, conns, k),
            i,
        ) && port_edges(blocks, conns.insert(i, c), k + 1) == port_edges(blocks, conns, k),
    decreases k,
{
    let all = conns.insert(i, c);
    if k > 0 {
        lemma_outside_insert(blocks, conns, i, c, k - 1);
        let d = conns[k - 1];
        let n = d.targets@.len() as int;
        lemma_targets_numbered(blocks, d.source.block, d.targets@, (k - 1) as usize, i, n);
        let more = target_specs(blocks, d.source.block, d.targets@, (k - 1) as usize, n);
        assert(numbered_past(conn_specs(blocks, conns, k - 1) + more, i) =~= numbered_past(
            conn_specs(blocks, conns, k - 1),
            i,
        ) + numbered_past(more, i));
        if k <= i {
            assert(all[k - 1] == d);
        } else {
            assert(all[k] == d);
        }
    } else {
        assert(numbered_past(conn_specs(blocks, conns, 0), i) =~= conn_specs(blocks, all, 0));
    }
    if k == i {
        assert(all[i] == c);
        let n = c.targets@.len() as int;
        lemma_outside_targets(blocks, c, i as usize, n);
        assert(conn_specs(blocks, all, k + 1) =~= conn_specs(blocks, all, k));
        assert(port_edges(blocks, all, k + 1) =~= port_edges(blocks, all, k));
    }
}

/// A connection whose source is outside of the system, or whose targets all are, leaves
/// what the scheduler is given as it was, wherever it stands among the connections: the
/// edges are the same, and so are the connections between blocks, but for the numbers
/// of those behind it.
pub proof fn law_outside_connection_adds_nothing(
    blocks: Seq<u64>,
    conns: Seq<ConnModel>,
    i: int,
    c: ConnModel,
)
    requires
        0 <= i <= conns.len(),
        conns.len() < usize::MAX,
        ends_outside(blocks, c),
    ensures
        ({
            let n = conns.len() as int;
            let more = conns.insert(i, c);
            &&& conn_specs(blocks, more, n + 1) == numbered_past(conn_specs(blocks, conns, n), i)
            &&& i == n ==> conn_specs(blocks, more, n + 1) == conn_specs(blocks, conns, n)
            &&& port_edges(blocks, more, n + 1) == port_edges(blocks, conns, n)
        }),
{
    let n = conns.len() as int;
    lemma_outside_insert(blocks, conns, i, c, n);
    if i == n {
        lemma_specs_numbers(blocks, conns, n);
        let specs = conn_specs(blocks, conns, n);
        assert(numbered_past(specs, i) =~= specs);
    }
}

proof fn lemma_target_numbers(
    blocks: Seq<u64>,
    source: u64,
    targets: Seq<PortModel>,
    number: usize,
    k: int,
)
    ensures
        forall|j: int|
            0 <= j < target_specs(blocks, source, targets, number, k).len() ==> (
            #[trigger] target_specs(blocks, source, targets, number, k)[j]).2 == number,
    decreases k,
{
    if k > 0 {
        lemma_target_numbers(blocks, source, targets, number, k - 1);
        let before = target_specs(blocks, source, targets, number, k - 1);
        let all = target_specs(blocks, source, targets, number, k);
        assert forall|j: int| 0 <= j < all.len() implies (#[trigger] all[j]).2 == number by {
            if j < before.len() {
                assert(all[j] == before[j]);
            }
        }
    }
}

proof fn lemma_specs_numbers(blocks: Seq<u64>, conns: Seq<ConnModel>, k: int)
    requires
        0 <= k <= conns.len() <= usize::MAX,
    ensures
        forall|j: int|
            0 <= j < conn_specs(blocks, conns, k).len() ==> (#[trigger] conn_specs(
                blocks,
                conns,
                k,
            )[j]).2 < k,
    decreases k,
{
    if k > 0 {
        lemma_specs_numbers(blocks, conns, k - 1);
        let c = conns[k - 1];
        lemma_target_numbers(
            blocks,
            c.source.block,
            c.targets@,
            (k - 1) as usize,
            c.targets@.len() as int,
        );
        let before = conn_specs(blocks, conns, k - 1);
        let more = target_specs(
            blocks,
            c.source.block,
            c.targets@,
            (k - 1) as usize,
            c.targets@.len() as int,
        );
        assert forall|j: int| 0 <= j < conn_specs(blocks, conns, k).len() implies (
        #[trigger] conn_specs(blocks, conns, k)[j]).2 < k by {
            if j < before.len() {
                assert(conn_specs(blocks, conns, k)[j] == before[j]);
            } else {
                assert(conn_specs(blocks, conns, k)[j] == more[j - before.len()]);
            }
        }
    }
}

proof fn lemma_target_removed(
    blocks: Seq<u64>,
    source: PortModel,
    targets: Seq<PortModel>,
    number: usize,
    j: int,
    k: int,
)
    requires
        0 <= j < targets.len(),
        0 <= k < targets.len(),
        !blocks.contains(targets[j].block),
    ensures
        k <= j ==> target_specs(blocks, source.block, targets.remove(j), number, k)
            == target_specs(blocks, source.block, targets, number, k) && target_edges(
            blocks,
            source,
            targets.remove(j),
            k,
        ) == target_edges(blocks, source, targets, k),
        k >= j ==> target_specs(blocks, source.block, targets.remove(j), number, k)
            == target_specs(blocks, source.block, targets, number, k + 1) && target_edges(
            blocks,
            source,
            targets.remove(j),
            k,
        ) == target_edges(blocks, source, targets, k + 1),
    decreases k,
{
    let rest = targets.remove(j);
    if k > 0 {
        lemma_target_removed(blocks, source, targets, number, j, k - 1);
        if k <= j {
            assert(rest[k - 1] == targets[k - 1]);
        } else {
            assert(rest[k - 1] == targets[k]);
        }
    }
    if k == j {
        lemma_block_index_missing(blocks, targets[j].block);
        assert(target_specs(blocks, source.block, targets, number, k + 1) == target_specs(
            blocks,
            source.block,
            targets,
            number,
            k,
        ));
        assert(target_edges(blocks, source, targets, k + 1) == target_edges(
            blocks,
            source,
            targets,
            k,
        ));
    }
}

proof fn lemma_outside_update(
    blocks: Seq<u64>,
    conns: Seq<ConnModel>,
    i: int,
    j: int,
    c: ConnModel,
    k: int,
)
    requires
        0 <= i < conns.len(),
        0 <= k <= conns.len(),
        0 <= j < conns[i].targets@.len(),
        !blocks.contains(conns[i].targets@[j].block),
        c.source == conns[i].source,
        c.targets@ == conns[i].targets@.remove(j),
    ensures
        conn_specs(blocks, conns.update(i, c), k) == conn_specs(blocks, conns, k),
        port_edges(blocks, conns.update(i, c), k) == port_edges(blocks, conns, k),
    decreases k,
{
    if k > 0 {
        lemma_outside_update(blocks, conns, i, j, c, k - 1);
        if k - 1 == i {
            let targets = conns[i].targets@;
            lemma_target_removed(blocks, c.source, targets, i as usize, j, targets.len() - 1);
        }
    }
}

/// Leaving out a target that is outside of the system leaves what the scheduler is given
/// as it was.
pub proof fn law_outside_target_adds_nothing(
    blocks: Seq<u64>,
    conns: Seq<ConnModel>,
    i: int,
    j: int,
    c: ConnModel,
)
    requires
        0 <= i < conns.len(),
        0 <= j < conns[i].targets@.len(),
        !blocks.contains(conns[i].targets@[j].block),
        c.source == conns[i].source,
        c.targets@ == conns[i].targets@.remove(j),
    ensures
        ({
            let n = conns.len() as int;
            let less = conns.update(i, c);
            &&& conn_specs(blocks, less, n) == conn_specs(blocks, conns, n)
            &&& port_edges(blocks, less, n) == port_edges(blocks, conns, n)
        }),
{
    lemma_outside_update(blocks, conns, i, j, c, conns.len() as int);
}

} // verus!
