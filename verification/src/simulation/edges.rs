//! Laws of the edges that the order of evaluation is found by.

use vstd::prelude::*;

use crate::model::ConnModel;
use crate::simulation::graph::{block_index, pair_edges, port_edges, shorter, target_edges};
use crate::simulation::runtime::PortEdge;

verus! {

/// Block `i` is the one that a key stands for: the last with that key.
pub open spec fn last_at(blocks: Seq<u64>, key: u64, i: int) -> bool {
    0 <= i < blocks.len() && blocks[i] == key && forall|j: int|
        i < j < blocks.len() ==> #[trigger] blocks[j] != key
}

/// A block has the number of the last position of its key, if it has one.
pub proof fn law_block_number(blocks: Seq<u64>, key: u64)
    requires
        blocks.len() <= usize::MAX,
    ensures
        block_index(blocks, key) is None <==> !blocks.contains(key),
        block_index(blocks, key) matches Some(i) ==> last_at(blocks, key, i as int),
    decreases blocks.len(),
{
    if blocks.len() > 0 {
        let rest = blocks.drop_last();
        law_block_number(rest, key);
        if blocks.last() == key {
            assert(blocks[blocks.len() - 1] == key);
        } else {
            assert(blocks.contains(key) ==> rest.contains(key)) by {
                if blocks.contains(key) {
                    let i = choose|i: int| 0 <= i < blocks.len() && blocks[i] == key;
                    assert(rest[i] == key);
                }
            }
            if block_index(rest, key) is Some {
                let i = block_index(rest, key)->0 as int;
                assert(rest[i] == key);
                assert(blocks[i] == key);
                assert forall|j: int| i < j < blocks.len() implies #[trigger] blocks[j] != key by {
                    if j < rest.len() {
                        assert(rest[j] == blocks[j]);
                    }
                }
            }
        }
    }
}

/// Pair `k` of target `t` of connection `ci` leads from output `e.out_port` of block
/// `e.src` to input `e.in_port` of block `e.tgt`.
pub open spec fn leads(
    blocks: Seq<u64>,
    conns: Seq<ConnModel>,
    ci: int,
    t: int,
    k: int,
    e: PortEdge,
) -> bool {
    &&& 0 <= t < conns[ci].targets@.len()
    &&& 0 <= k < conns[ci].source.indices@.len()
    &&& k < conns[ci].targets@[t].indices@.len()
    &&& last_at(blocks, conns[ci].source.block, e.src as int)
    &&& last_at(blocks, conns[ci].targets@[t].block, e.tgt as int)
    &&& e.out_port == conns[ci].source.indices@[k]
    &&& e.in_port == conns[ci].targets@[t].indices@[k]
}

proof fn lemma_pairs(src: usize, outs: Seq<usize>, tgt: usize, ins: Seq<usize>, k: int)
    requires
        0 <= k,
    ensures
        pair_edges(src, outs, tgt, ins, k).len() == k,
        forall|q: int|
            #![trigger pair_edges(src, outs, tgt, ins, k)[q]]
            0 <= q < k ==> pair_edges(src, outs, tgt, ins, k)[q] == (PortEdge {
                src,
                out_port: outs[q],
                tgt,
                in_port: ins[q],
            }),
    decreases k,
{
    if k > 0 {
        lemma_pairs(src, outs, tgt, ins, k - 1);
    }
}

proof fn lemma_last_unique(blocks: Seq<u64>, key: u64, i: int, j: int)
    requires
        last_at(blocks, key, i),
        last_at(blocks, key, j),
    ensures
        i == j,
{
    if i < j {
        assert(blocks[j] != key);
    } else if j < i {
        assert(blocks[i] != key);
    }
}

proof fn lemma_target_edges(
    blocks: Seq<u64>,
    conns: Seq<ConnModel>,
    ci: int,
    k: int,
    e: PortEdge,
)
    requires
        blocks.len() <= usize::MAX,
        0 <= ci < conns.len(),
        0 <= k <= conns[ci].targets@.len(),
    ensures
        target_edges(blocks, conns[ci].source, conns[ci].targets@, k).contains(e) <==> exists|
            t: int,
            q: int,
        | #[trigger] leads(blocks, conns, ci, t, q, e) && t < k,
    decreases k,
{
    let (source, targets) = (conns[ci].source, conns[ci].targets@);
    let all = target_edges(blocks, source, targets, k);
    if k > 0 {
        lemma_target_edges(blocks, conns, ci, k - 1, e);
        let before = target_edges(blocks, source, targets, k - 1);
        let t = targets[k - 1];
        law_block_number(blocks, source.block);
        law_block_number(blocks, t.block);
        let n = shorter(source.indices@.len(), t.indices@.len());
        match (block_index(blocks, source.block), block_index(blocks, t.block)) {
            (Some(src), Some(tgt)) => {
                let new = pair_edges(src, source.indices@, tgt, t.indices@, n);
                lemma_pairs(src, source.indices@, tgt, t.indices@, n);
                assert(all == before + new);
                if all.contains(e) {
                    let i = choose|i: int| 0 <= i < all.len() && all[i] == e;
                    if i < before.len() {
                        assert(before[i] == e);
                    } else {
                        let q = i - before.len();
                        assert(new[q] == e);
                        assert(leads(blocks, conns, ci, k - 1, q, e));
                    }
                }
                if exists|t: int, q: int| #[trigger] leads(blocks, conns, ci, t, q, e) && t < k {
                    let (u, q) = choose|t: int, q: int| #[trigger]
                        leads(blocks, conns, ci, t, q, e) && t < k;
                    if u < k - 1 {
                        assert(before.contains(e));
                        let i = choose|i: int| 0 <= i < before.len() && before[i] == e;
                        assert(all[i] == e);
                    } else {
                        lemma_last_unique(blocks, source.block, src as int, e.src as int);
                        lemma_last_unique(blocks, t.block, tgt as int, e.tgt as int);
                        assert(new[q] == e);
                        assert(all[before.len() + q] == e);
                    }
                }
            },
            _ => {
                if exists|t: int, q: int| #[trigger] leads(blocks, conns, ci, t, q, e) && t < k {
                    let (u, q) = choose|t: int, q: int| #[trigger]
                        leads(blocks, conns, ci, t, q, e) && t < k;
                    if u == k - 1 {
                        assert(blocks[e.src as int] == source.block);
                        assert(blocks[e.tgt as int] == t.block);
                    }
                }
            },
        }
    }
}

/// The edges between single ports are those that the pairs of elements of connections lead
/// along, no more and no fewer; surplus elements of the wider end lead nowhere.
pub proof fn law_edges_follow_pairs(
    blocks: Seq<u64>,
    conns: Seq<ConnModel>,
    n: int,
    e: PortEdge,
)
    requires
        blocks.len() <= usize::MAX,
        0 <= n <= conns.len(),
    ensures
        port_edges(blocks, conns, n).contains(e) <==> exists|ci: int, t: int, k: int| #[trigger]
            leads(blocks, conns, ci, t, k, e) && 0 <= ci < n,
    decreases n,
{
    if n > 0 {
        law_edges_follow_pairs(blocks, conns, n - 1, e);
        let c = conns[n - 1];
        let before = port_edges(blocks, conns, n - 1);
        let new = target_edges(blocks, c.source, c.targets@, c.targets@.len() as int);
        let all = port_edges(blocks, conns, n);
        lemma_target_edges(blocks, conns, n - 1, c.targets@.len() as int, e);
        assert(all == before + new);
        if all.contains(e) {
            let i = choose|i: int| 0 <= i < all.len() && all[i] == e;
            if i < before.len() {
                assert(before[i] == e);
            } else {
                assert(new[i - before.len()] == e);
            }
        }
        if before.contains(e) {
            let i = choose|i: int| 0 <= i < before.len() && before[i] == e;
            assert(all[i] == e);
        }
        if new.contains(e) {
            let i = choose|i: int| 0 <= i < new.len() && new[i] == e;
            assert(all[before.len() + i] == e);
        }
    }
}

} // verus!
