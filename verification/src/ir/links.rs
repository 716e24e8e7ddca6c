//! Laws of connections: which of a scope are kept, and what their ends refer to.

use vstd::prelude::*;

use crate::ir::schema::{BlockId, Connection, PortRef};
use crate::ir::scope::{connections_ir, first_at, port_ir, reference, slicing, targets_ir};
use crate::model::{ConnModel, PortModel};

verus! {

/// `b` refers to the block with the given key: to the interface of the scope, or to the
/// first child with that key.
pub open spec fn refers(keys: Seq<u64>, iface: Option<u64>, key: u64, b: BlockId) -> bool {
    if iface == Some(key) {
        b.0 == u32::MAX
    } else {
        exists|i: int|
            0 <= i < keys.len() && #[trigger] keys[i] == key && b.0 == i as u32 && forall|j: int|
                0 <= j < i ==> #[trigger] keys[j] != key
    }
}

/// The block with the given key is the interface of the scope or one of its children.
pub open spec fn in_scope(keys: Seq<u64>, iface: Option<u64>, key: u64) -> bool {
    iface == Some(key) || keys.contains(key)
}

proof fn lemma_first(keys: Seq<u64>, key: u64, k: int)
    requires
        0 <= k < keys.len(),
        keys[k] == key,
    ensures
        exists|i: int| first_at(keys, key, i),
    decreases k,
{
    if exists|j: int| 0 <= j < k && #[trigger] keys[j] == key {
        let j = choose|j: int| 0 <= j < k && #[trigger] keys[j] == key;
        lemma_first(keys, key, j);
    } else {
        assert(first_at(keys, key, k));
    }
}

/// A scope refers to exactly the blocks that are in it.
pub proof fn law_reference(keys: Seq<u64>, iface: Option<u64>, key: u64)
    ensures
        reference(keys, iface, key) is Some <==> in_scope(keys, iface, key),
        reference(keys, iface, key) matches Some(b) ==> refers(keys, iface, key, b),
{
    if iface != Some(key) {
        if keys.contains(key) {
            let k = choose|k: int| 0 <= k < keys.len() && keys[k] == key;
            lemma_first(keys, key, k);
        }
        if exists|i: int| first_at(keys, key, i) {
            let i = choose|i: int| first_at(keys, key, i);
            assert(first_at(keys, key, i));
            assert(keys[i] == key);
        }
    }
}

/// `r` stands for the end `p` of a connection: for its block and its elements.
pub open spec fn end_of(keys: Seq<u64>, iface: Option<u64>, p: PortModel, r: PortRef) -> bool {
    &&& refers(keys, iface, p.block, r.block)
    &&& r.port == 0
    &&& slicing(p.indices@, r.elems)
}

/// The ends `out` are those of the targets that are in the scope, in their order: `at[j]`
/// is the target that end `j` stands for.
pub open spec fn ends_of(
    keys: Seq<u64>,
    iface: Option<u64>,
    targets: Seq<PortModel>,
    out: Seq<PortRef>,
    at: Seq<int>,
) -> bool {
    &&& at.len() == out.len()
    &&& forall|j: int|
        0 <= j < out.len() ==> 0 <= #[trigger] at[j] < targets.len() && end_of(
            keys,
            iface,
            targets[at[j]],
            out[j],
        )
    &&& forall|i: int, j: int| 0 <= i < j < at.len() ==> #[trigger] at[i] < #[trigger] at[j]
    &&& forall|t: int|
        #![trigger targets[t]]
        0 <= t < targets.len() && in_scope(keys, iface, targets[t].block) ==> at.contains(t)
}

/// The targets of a connection that are in the scope are kept, in their order, and no
/// others.
pub proof fn law_targets_are_kept(
    keys: Seq<u64>,
    iface: Option<u64>,
    targets: Seq<PortModel>,
    out: Seq<PortRef>,
) -> (at: Seq<int>)
    requires
        targets_ir(keys, iface, targets, out),
    ensures
        ends_of(keys, iface, targets, out, at),
    decreases targets.len(),
{
    if targets.len() == 0 {
        let at = Seq::<int>::empty();
        assert(ends_of(keys, iface, targets, out, at));
        at
    } else {
        let rest = targets.drop_last();
        let last = targets.len() - 1;
        law_reference(keys, iface, targets.last().block);
        match reference(keys, iface, targets.last().block) {
            None => {
                let at = law_targets_are_kept(keys, iface, rest, out);
                assert forall|j: int| 0 <= j < out.len() implies 0 <= #[trigger] at[j]
                    < targets.len() && end_of(keys, iface, targets[at[j]], out[j]) by {
                    assert(rest[at[j]] == targets[at[j]]);
                }
                assert forall|t: int|
                    #![trigger targets[t]]
                    0 <= t < targets.len() && in_scope(
                        keys,
                        iface,
                        targets[t].block,
                    ) implies at.contains(t) by {
                    assert(t < last);
                    assert(rest[t] == targets[t]);
                }
                at
            },
            Some(b) => {
                let fewer = out.drop_last();
                let before = law_targets_are_kept(keys, iface, rest, fewer);
                let at = before.push(last);
                assert forall|j: int| 0 <= j < out.len() implies 0 <= #[trigger] at[j]
                    < targets.len() && end_of(keys, iface, targets[at[j]], out[j]) by {
                    if j < before.len() {
                        assert(at[j] == before[j]);
                        assert(rest[before[j]] == targets[at[j]]);
                        assert(fewer[j] == out[j]);
                    } else {
                        assert(port_ir(targets.last(), b, out.last()));
                    }
                }
                assert forall|i: int, j: int| 0 <= i < j < at.len() implies #[trigger] at[i]
                    < #[trigger] at[j] by {
                    assert(at[i] == before[i]);
                    assert(0 <= before[i] < rest.len());
                    if j < before.len() {
                        assert(at[j] == before[j]);
                    }
                }
                assert forall|t: int|
                    #![trigger targets[t]]
                    0 <= t < targets.len() && in_scope(
                        keys,
                        iface,
                        targets[t].block,
                    ) implies at.contains(t) by {
                    if t < last {
                        assert(rest[t] == targets[t]);
                        assert(before.contains(t));
                        let i = choose|i: int| 0 <= i < before.len() && before[i] == t;
                        assert(at[i] == t);
                    } else {
                        assert(at[before.len() as int] == last);
                    }
                }
                at
            },
        }
    }
}

/// `c` is connection number `ci`: it has that number, its source, and its targets that are
/// in the scope.
pub open spec fn keeps_connection(
    keys: Seq<u64>,
    iface: Option<u64>,
    conns: Seq<ConnModel>,
    ci: int,
    c: Connection,
) -> bool {
    &&& 0 <= ci < conns.len()
    &&& c.id.0 == ci as u32
    &&& end_of(keys, iface, conns[ci].source, c.src)
    &&& exists|at: Seq<int>| #[trigger]
        ends_of(keys, iface, conns[ci].targets@, c.targets@, at)
}

/// The connections of a scope are those whose source is in it, each once and under the
/// number that it had, and no others: `at[j]` is the number of connection `j`.
pub proof fn law_connections_are_kept(
    keys: Seq<u64>,
    iface: Option<u64>,
    conns: Seq<ConnModel>,
    out: Seq<Connection>,
) -> (at: Seq<int>)
    requires
        connections_ir(keys, iface, conns, out),
    ensures
        at.len() == out.len(),
        forall|j: int|
            #![trigger out[j]]
            0 <= j < out.len() ==> keeps_connection(keys, iface, conns, at[j], out[j]),
        forall|i: int, j: int| 0 <= i < j < at.len() ==> #[trigger] at[i] < #[trigger] at[j],
        forall|ci: int|
            #![trigger conns[ci]]
            0 <= ci < conns.len() && in_scope(keys, iface, conns[ci].source.block) ==> at.contains(
                ci,
            ),
    decreases conns.len(),
{
    if conns.len() == 0 {
        Seq::empty()
    } else {
        let rest = conns.drop_last();
        let last = conns.len() - 1;
        law_reference(keys, iface, conns.last().source.block);
        match reference(keys, iface, conns.last().source.block) {
            None => {
                let at = law_connections_are_kept(keys, iface, rest, out);
                assert forall|j: int|
                    #![trigger out[j]]
                    0 <= j < out.len() implies keeps_connection(
                    keys,
                    iface,
                    conns,
                    at[j],
                    out[j],
                ) by {
                    assert(keeps_connection(keys, iface, rest, at[j], out[j]));
                    assert(rest[at[j]] == conns[at[j]]);
                }
                assert forall|ci: int|
                    #![trigger conns[ci]]
                    0 <= ci < conns.len() && in_scope(
                        keys,
                        iface,
                        conns[ci].source.block,
                    ) implies at.contains(ci) by {
                    assert(ci < last);
                    assert(rest[ci] == conns[ci]);
                }
                at
            },
            Some(b) => {
                let fewer = out.drop_last();
                let before = law_connections_are_kept(keys, iface, rest, fewer);
                let at = before.push(last);
                let targets = law_targets_are_kept(
                    keys,
                    iface,
                    conns.last().targets@,
                    out.last().targets@,
                );
                assert(port_ir(conns.last().source, b, out.last().src));
                assert(keeps_connection(keys, iface, conns, last, out.last()));
                assert forall|j: int|
                    #![trigger out[j]]
                    0 <= j < out.len() implies keeps_connection(
                    keys,
                    iface,
                    conns,
                    at[j],
                    out[j],
                ) by {
                    if j < before.len() {
                        assert(at[j] == before[j]);
                        assert(fewer[j] == out[j]);
                        assert(keeps_connection(keys, iface, rest, before[j], fewer[j]));
                        assert(rest[before[j]] == conns[at[j]]);
                    } else {
                        assert(out[j] == out.last());
                    }
                }
                assert forall|i: int, j: int| 0 <= i < j < at.len() implies #[trigger] at[i]
                    < #[trigger] at[j] by {
                    assert(at[i] == before[i]);
                    assert(fewer[i] == out[i]);
                    assert(keeps_connection(keys, iface, rest, before[i], fewer[i]));
                    if j < before.len() {
                        assert(at[j] == before[j]);
                    }
                }
                assert forall|ci: int|
                    #![trigger conns[ci]]
                    0 <= ci < conns.len() && in_scope(
                        keys,
                        iface,
                        conns[ci].source.block,
                    ) implies at.contains(ci) by {
                    if ci < last {
                        assert(rest[ci] == conns[ci]);
                        assert(before.contains(ci));
                        let i = choose|i: int| 0 <= i < before.len() && before[i] == ci;
                        assert(at[i] == ci);
                    } else {
                        assert(at[before.len() as int] == last);
                    }
                }
                at
            },
        }
    }
}

} // verus!
