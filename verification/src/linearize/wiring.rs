//! The interconnection matrix of a diagram.

use vstd::prelude::*;

use crate::ir::scope::first_at;
use crate::linearize::local::LinearBlock;
use crate::matrix::{lemma_place_bounds, lemma_place_unique, place, zero_vec};
use crate::model::ConnModel;
use crate::scalar::{ones, zeros, Scalar};

verus! {

/// Keys of the blocks, in order.
pub open spec fn block_ids<F>(blocks: Seq<LinearBlock<F>>) -> Seq<u64> {
    blocks.map_values(|b: LinearBlock<F>| b.key)
}

/// First position of a key.
pub open spec fn position(keys: Seq<u64>, key: u64) -> Option<int> {
    if exists|i: int| first_at(keys, key, i) {
        Some(choose|i: int| first_at(keys, key, i))
    } else {
        None
    }
}

/// Where the inputs and outputs of each block begin, and how many there are.
pub struct PortLayout {
    pub v_off: Vec<usize>,
    pub w_off: Vec<usize>,
    pub n_v: usize,
    pub n_w: usize,
}

impl PortLayout {
    /// Every block begins inside the totals.
    pub open spec fn bounded(&self, n_blocks: nat) -> bool {
        &&& self.v_off@.len() == n_blocks
        &&& self.w_off@.len() == n_blocks
        &&& forall|i: int| 0 <= i < n_blocks ==> #[trigger] self.v_off@[i] <= self.n_v
        &&& forall|i: int| 0 <= i < n_blocks ==> #[trigger] self.w_off@[i] <= self.n_w
    }
}

/// Element pair `q` of target `t` of connection `ci` carries output `c` to input
/// `r`: both blocks are known, the input is not driven from outside, and both
/// elements exist.
pub open spec fn wire(
    keys: Seq<u64>,
    conns: Seq<ConnModel>,
    broken: Seq<(usize, usize)>,
    layout: PortLayout,
    ci: int,
    t: int,
    q: int,
    r: int,
    c: int,
) -> bool {
    let conn = conns[ci];
    let target = conn.targets@[t];
    &&& 0 <= ci < conns.len()
    &&& 0 <= t < conn.targets@.len()
    &&& 0 <= q < conn.source.indices@.len()
    &&& q < target.indices@.len()
    &&& position(keys, conn.source.block) is Some
    &&& position(keys, target.block) is Some
    &&& {
        let from = position(keys, conn.source.block)->Some_0;
        let to = position(keys, target.block)->Some_0;
        let s = conn.source.indices@[q];
        let d = target.indices@[q];
        &&& !broken.contains((to as usize, d))
        &&& r == layout.v_off@[to] + d
        &&& r < layout.n_v
        &&& c == layout.w_off@[from] + s
        &&& c < layout.n_w
    }
}

/// One of the first `n` pairs of a target carries output `c` to input `r`.
pub open spec fn pair_wired(
    keys: Seq<u64>,
    conns: Seq<ConnModel>,
    broken: Seq<(usize, usize)>,
    layout: PortLayout,
    ci: int,
    t: int,
    n: int,
    r: int,
    c: int,
) -> bool {
    exists|q: int| 0 <= q < n && #[trigger] wire(keys, conns, broken, layout, ci, t, q, r, c)
}

/// One of the first `n` targets of a connection carries output `c` to input `r`.
pub open spec fn target_wired(
    keys: Seq<u64>,
    conns: Seq<ConnModel>,
    broken: Seq<(usize, usize)>,
    layout: PortLayout,
    ci: int,
    n: int,
    r: int,
    c: int,
) -> bool {
    exists|t: int, q: int|
        0 <= t < n && #[trigger] wire(keys, conns, broken, layout, ci, t, q, r, c)
}

/// One of the first `n` connections carries output `c` to input `r`.
pub open spec fn wired(
    keys: Seq<u64>,
    conns: Seq<ConnModel>,
    broken: Seq<(usize, usize)>,
    layout: PortLayout,
    n: int,
    r: int,
    c: int,
) -> bool {
    exists|ci: int, t: int, q: int|
        0 <= ci < n && #[trigger] wire(keys, conns, broken, layout, ci, t, q, r, c)
}

/// `l` is the interconnection matrix: one where an output is carried to an input,
/// zero elsewhere.
pub open spec fn interconnection<F: Scalar>(
    keys: Seq<u64>,
    conns: Seq<ConnModel>,
    broken: Seq<(usize, usize)>,
    layout: PortLayout,
    n: int,
    l: Seq<F>,
) -> bool {
    &&& l.len() == layout.n_v * layout.n_w
    &&& forall|r: int, c: int|
        #![trigger l[place(layout.n_w as int, r, c)]]
        0 <= r < layout.n_v && 0 <= c < layout.n_w ==> if wired(
            keys,
            conns,
            broken,
            layout,
            n,
            r,
            c,
        ) {
            ones(l[place(layout.n_w as int, r, c)])
        } else {
            zeros(l[place(layout.n_w as int, r, c)])
        }
}

fn find_block<F>(blocks: &Vec<LinearBlock<F>>, key: u64) -> (r: Option<usize>)
    ensures
        match r {
            Some(i) => position(block_ids(blocks@), key) == Some(i as int) && i < blocks@.len(),
            None => position(block_ids(blocks@), key) is None,
        },
{
    let ghost keys = block_ids(blocks@);
    let mut i: usize = 0;
    while i < blocks.len()
        invariant
            i <= blocks.len(),
            keys == block_ids(blocks@),
            forall|j: int| 0 <= j < i ==> #[trigger] keys[j] != key,
        decreases blocks.len() - i,
    {
        assert(keys[i as int] == blocks@[i as int].key);
        if blocks[i].key == key {
            proof {
                assert(first_at(keys, key, i as int));
                let k = choose|k: int| first_at(keys, key, k);
                if k < i {
                    assert(keys[k] != key);
                }
            }
            return Some(i);
        }
        i += 1;
    }
    None
}

fn is_broken(broken: &Vec<(usize, usize)>, block: usize, row: usize) -> (r: bool)
    ensures
        r == broken@.contains((block, row)),
{
    let mut i: usize = 0;
    while i < broken.len()
        invariant
            i <= broken.len(),
            forall|k: int| 0 <= k < i ==> #[trigger] broken@[k] != (block, row),
        decreases broken.len() - i,
    {
        if broken[i].0 == block && broken[i].1 == row {
            assert(broken@[i as int] == (block, row));
            return true;
        }
        i += 1;
    }
    false
}

fn mark_target<F: Scalar>(
    l: &mut Vec<F>,
    blocks: &Vec<LinearBlock<F>>,
    conns: &Vec<ConnModel>,
    broken: &Vec<(usize, usize)>,
    layout: &PortLayout,
    ci: usize,
    t: usize,
    from: usize,
    to: usize,
)
    requires
        layout.bounded(blocks@.len()),
        old(l)@.len() == layout.n_v * layout.n_w,
        ci < conns@.len(),
        t < conns@[ci as int].targets@.len(),
        from < blocks@.len(),
        to < blocks@.len(),
        position(block_ids(blocks@), conns@[ci as int].source.block) == Some(from as int),
        position(block_ids(blocks@), conns@[ci as int].targets@[t as int].block) == Some(
            to as int,
        ),
    ensures
        final(l)@.len() == old(l)@.len(),
        forall|r: int, c: int|
            #![trigger final(l)@[place(layout.n_w as int, r, c)]]
            0 <= r < layout.n_v && 0 <= c < layout.n_w ==> if exists|q: int| #[trigger]
                wire(
                    block_ids(blocks@),
                    conns@,
                    broken@,
                    *layout,
                    ci as int,
                    t as int,
                    q,
                    r,
                    c,
                ) {
                ones(final(l)@[place(layout.n_w as int, r, c)])
            } else {
                final(l)@[place(layout.n_w as int, r, c)] == old(l)@[place(
                    layout.n_w as int,
                    r,
                    c,
                )]
            },
{
    let ghost before = l@;
    let ghost keys = block_ids(blocks@);
    let size: usize = l.len();
    let source: &Vec<usize> = &conns[ci].source.indices;
    let target: &Vec<usize> = &conns[ci].targets[t].indices;
    let n: usize = if source.len() <= target.len() {
        source.len()
    } else {
        target.len()
    };
    let mut k: usize = 0;
    while k < n
        invariant
            k <= n,
            n <= source@.len(),
            n <= target@.len(),
            keys == block_ids(blocks@),
            layout.bounded(blocks@.len()),
            size == layout.n_v * layout.n_w,
            l@.len() == size,
            before.len() == size,
            ci < conns@.len(),
            t < conns@[ci as int].targets@.len(),
            source@ == conns@[ci as int].source.indices@,
            target@ == conns@[ci as int].targets@[t as int].indices@,
            from < blocks@.len(),
            to < blocks@.len(),
            position(keys, conns@[ci as int].source.block) == Some(from as int),
            position(keys, conns@[ci as int].targets@[t as int].block) == Some(to as int),
            forall|r: int, c: int|
                #![trigger l@[place(layout.n_w as int, r, c)]]
                0 <= r < layout.n_v && 0 <= c < layout.n_w ==> if pair_wired(
                    keys,
                    conns@,
                    broken@,
                    *layout,
                    ci as int,
                    t as int,
                    k as int,
                    r,
                    c,
                ) {
                    ones(l@[place(layout.n_w as int, r, c)])
                } else {
                    l@[place(layout.n_w as int, r, c)] == before[place(layout.n_w as int, r, c)]
                },
        decreases n - k,
    {
        let s: usize = source[k];
        let d: usize = target[k];
        let ghost prior = l@;
        assert(layout.v_off@[to as int] <= layout.n_v && layout.w_off@[from as int]
            <= layout.n_w);
        if !is_broken(broken, to, d) && d < layout.n_v - layout.v_off[to] && s < layout.n_w
            - layout.w_off[from] {
            let r: usize = layout.v_off[to] + d;
            let c: usize = layout.w_off[from] + s;
            proof {
                lemma_place_bounds(layout.n_v as int, layout.n_w as int, r as int, c as int);
                assert(wire(
                    keys,
                    conns@,
                    broken@,
                    *layout,
                    ci as int,
                    t as int,
                    k as int,
                    r as int,
                    c as int,
                ));
            }
            l.set(r * layout.n_w + c, F::one());
            proof {
                assert forall|r2: int, c2: int|
                    0 <= r2 < layout.n_v && 0 <= c2 < layout.n_w implies if pair_wired(
                    keys,
                    conns@,
                    broken@,
                    *layout,
                    ci as int,
                    t as int,
                    k + 1,
                    r2,
                    c2,
                ) {
                    ones(#[trigger] l@[place(layout.n_w as int, r2, c2)])
                } else {
                    l@[place(layout.n_w as int, r2, c2)] == before[place(
                        layout.n_w as int,
                        r2,
                        c2,
                    )]
                } by {
                    lemma_place_bounds(layout.n_v as int, layout.n_w as int, r2, c2);
                    if r2 == r && c2 == c {
                    } else {
                        if place(layout.n_w as int, r2, c2) == place(
                            layout.n_w as int,
                            r as int,
                            c as int,
                        ) {
                            lemma_place_unique(layout.n_w as int, r2, c2, r as int, c as int);
                        }
                        assert(l@[place(layout.n_w as int, r2, c2)] == prior[place(
                            layout.n_w as int,
                            r2,
                            c2,
                        )]);
                        assert(!wire(
                            keys,
                            conns@,
                            broken@,
                            *layout,
                            ci as int,
                            t as int,
                            k as int,
                            r2,
                            c2,
                        ));
                        assert(pair_wired(
                            keys,
                            conns@,
                            broken@,
                            *layout,
                            ci as int,
                            t as int,
                            k + 1,
                            r2,
                            c2,
                        ) == pair_wired(
                            keys,
                            conns@,
                            broken@,
                            *layout,
                            ci as int,
                            t as int,
                            k as int,
                            r2,
                            c2,
                        ));
                    }
                }
            }
        } else {
            proof {
                assert forall|r2: int, c2: int|
                    0 <= r2 < layout.n_v && 0 <= c2 < layout.n_w implies !wire(
                    keys,
                    conns@,
                    broken@,
                    *layout,
                    ci as int,
                    t as int,
                    k as int,
                    r2,
                    c2,
                ) by {}
                assert forall|r2: int, c2: int|
                    0 <= r2 < layout.n_v && 0 <= c2 < layout.n_w implies if pair_wired(
                    keys,
                    conns@,
                    broken@,
                    *layout,
                    ci as int,
                    t as int,
                    k + 1,
                    r2,
                    c2,
                ) {
                    ones(#[trigger] l@[place(layout.n_w as int, r2, c2)])
                } else {
                    l@[place(layout.n_w as int, r2, c2)] == before[place(
                        layout.n_w as int,
                        r2,
                        c2,
                    )]
                } by {
                    assert(pair_wired(
                        keys,
                        conns@,
                        broken@,
                        *layout,
                        ci as int,
                        t as int,
                        k + 1,
                        r2,
                        c2,
                    ) == pair_wired(
                        keys,
                        conns@,
                        broken@,
                        *layout,
                        ci as int,
                        t as int,
                        k as int,
                        r2,
                        c2,
                    ));
                }
            }
        }
        k += 1;
    }
    assert forall|r: int, c: int| 0 <= r < layout.n_v && 0 <= c < layout.n_w implies if exists|
        q: int,
    | #[trigger]
        wire(keys, conns@, broken@, *layout, ci as int, t as int, q, r, c) {
        ones(#[trigger] l@[place(layout.n_w as int, r, c)])
    } else {
        l@[place(layout.n_w as int, r, c)] == before[place(layout.n_w as int, r, c)]
    } by {
        assert((exists|q: int| #[trigger]
            wire(keys, conns@, broken@, *layout, ci as int, t as int, q, r, c)) == pair_wired(
            keys,
            conns@,
            broken@,
            *layout,
            ci as int,
            t as int,
            n as int,
            r,
            c,
        ));
    }
}

proof fn lemma_target_step(
    keys: Seq<u64>,
    conns: Seq<ConnModel>,
    broken: Seq<(usize, usize)>,
    layout: PortLayout,
    ci: int,
    t: int,
    r: int,
    c: int,
)
    requires
        0 <= t,
    ensures
        target_wired(keys, conns, broken, layout, ci, t + 1, r, c) == (target_wired(
            keys,
            conns,
            broken,
            layout,
            ci,
            t,
            r,
            c,
        ) || exists|q: int| #[trigger] wire(keys, conns, broken, layout, ci, t, q, r, c)),
{
    if target_wired(keys, conns, broken, layout, ci, t + 1, r, c) {
        let (u, q) = choose|u: int, q: int|
            0 <= u < t + 1 && #[trigger] wire(keys, conns, broken, layout, ci, u, q, r, c);
        if u < t {
            assert(target_wired(keys, conns, broken, layout, ci, t, r, c));
        }
    }
}

proof fn lemma_connection_step(
    keys: Seq<u64>,
    conns: Seq<ConnModel>,
    broken: Seq<(usize, usize)>,
    layout: PortLayout,
    ci: int,
    n: int,
    r: int,
    c: int,
)
    requires
        0 <= ci < conns.len(),
        n == conns[ci].targets@.len(),
    ensures
        wired(keys, conns, broken, layout, ci + 1, r, c) == (wired(
            keys,
            conns,
            broken,
            layout,
            ci,
            r,
            c,
        ) || target_wired(keys, conns, broken, layout, ci, n, r, c)),
{
    if wired(keys, conns, broken, layout, ci + 1, r, c) {
        let (u, t, q) = choose|u: int, t: int, q: int|
            0 <= u < ci + 1 && #[trigger] wire(keys, conns, broken, layout, u, t, q, r, c);
        if u < ci {
            assert(wired(keys, conns, broken, layout, ci, r, c));
        } else {
            assert(target_wired(keys, conns, broken, layout, ci, n, r, c));
        }
    }
    if target_wired(keys, conns, broken, layout, ci, n, r, c) {
        let (t, q) = choose|t: int, q: int|
            0 <= t < n && #[trigger] wire(keys, conns, broken, layout, ci, t, q, r, c);
        assert(wire(keys, conns, broken, layout, ci, t, q, r, c));
    }
    if wired(keys, conns, broken, layout, ci, r, c) {
        let (u, t, q) = choose|u: int, t: int, q: int|
            0 <= u < ci && #[trigger] wire(keys, conns, broken, layout, u, t, q, r, c);
        assert(wire(keys, conns, broken, layout, u, t, q, r, c));
    }
}

fn mark_connection<F: Scalar>(
    l: &mut Vec<F>,
    blocks: &Vec<LinearBlock<F>>,
    conns: &Vec<ConnModel>,
    broken: &Vec<(usize, usize)>,
    layout: &PortLayout,
    ci: usize,
)
    requires
        layout.bounded(blocks@.len()),
        old(l)@.len() == layout.n_v * layout.n_w,
        ci < conns@.len(),
    ensures
        final(l)@.len() == old(l)@.len(),
        forall|r: int, c: int|
            #![trigger final(l)@[place(layout.n_w as int, r, c)]]
            0 <= r < layout.n_v && 0 <= c < layout.n_w ==> if target_wired(
                block_ids(blocks@),
                conns@,
                broken@,
                *layout,
                ci as int,
                conns@[ci as int].targets@.len() as int,
                r,
                c,
            ) {
                ones(final(l)@[place(layout.n_w as int, r, c)])
            } else {
                final(l)@[place(layout.n_w as int, r, c)] == old(l)@[place(
                    layout.n_w as int,
                    r,
                    c,
                )]
            },
{
    let ghost before = l@;
    let ghost keys = block_ids(blocks@);
    let from: usize = match find_block(blocks, conns[ci].source.block) {
        Some(i) => i,
        None => {
            return;
        },
    };
    let mut t: usize = 0;
    while t < conns[ci].targets.len()
        invariant
            ci < conns@.len(),
            t <= conns@[ci as int].targets@.len(),
            keys == block_ids(blocks@),
            layout.bounded(blocks@.len()),
            l@.len() == layout.n_v * layout.n_w,
            before.len() == l@.len(),
            from < blocks@.len(),
            position(keys, conns@[ci as int].source.block) == Some(from as int),
            forall|r: int, c: int|
                #![trigger l@[place(layout.n_w as int, r, c)]]
                0 <= r < layout.n_v && 0 <= c < layout.n_w ==> if target_wired(
                    keys,
                    conns@,
                    broken@,
                    *layout,
                    ci as int,
                    t as int,
                    r,
                    c,
                ) {
                    ones(l@[place(layout.n_w as int, r, c)])
                } else {
                    l@[place(layout.n_w as int, r, c)] == before[place(layout.n_w as int, r, c)]
                },
        decreases conns@[ci as int].targets@.len() - t,
    {
        let ghost prior = l@;
        let found: Option<usize> = find_block(blocks, conns[ci].targets[t].block);
        if let Some(to) = found {
            mark_target(l, blocks, conns, broken, layout, ci, t, from, to);
        }
        proof {
            assert forall|r: int, c: int|
                0 <= r < layout.n_v && 0 <= c < layout.n_w implies if target_wired(
                keys,
                conns@,
                broken@,
                *layout,
                ci as int,
                t + 1,
                r,
                c,
            ) {
                ones(#[trigger] l@[place(layout.n_w as int, r, c)])
            } else {
                l@[place(layout.n_w as int, r, c)] == before[place(layout.n_w as int, r, c)]
            } by {
                lemma_target_step(keys, conns@, broken@, *layout, ci as int, t as int, r, c);
                let old_value = prior[place(layout.n_w as int, r, c)];
                if found is None {
                    assert(l@[place(layout.n_w as int, r, c)] == old_value);
                }
            }
        }
        t += 1;
    }
}

/// The interconnection matrix of a diagram whose inputs `broken` are driven from
/// outside.
pub fn interconnect<F: Scalar>(
    blocks: &Vec<LinearBlock<F>>,
    conns: &Vec<ConnModel>,
    broken: &Vec<(usize, usize)>,
    layout: &PortLayout,
) -> (l: Vec<F>)
    requires
        layout.bounded(blocks@.len()),
        layout.n_v * layout.n_w <= usize::MAX,
    ensures
        interconnection(
            block_ids(blocks@),
            conns@,
            broken@,
            *layout,
            conns@.len() as int,
            l@,
        ),
{
    let ghost keys = block_ids(blocks@);
    let mut l: Vec<F> = zero_vec(layout.n_v * layout.n_w);
    assert(interconnection(keys, conns@, broken@, *layout, 0, l@)) by {
        assert forall|r: int, c: int| 0 <= r < layout.n_v && 0 <= c < layout.n_w implies zeros(
            #[trigger] l@[place(layout.n_w as int, r, c)],
        ) by {
            lemma_place_bounds(layout.n_v as int, layout.n_w as int, r, c);
        }
    }
    let mut ci: usize = 0;
    while ci < conns.len()
        invariant
            ci <= conns@.len(),
            keys == block_ids(blocks@),
            layout.bounded(blocks@.len()),
            interconnection(keys, conns@, broken@, *layout, ci as int, l@),
        decreases conns.len() - ci,
    {
        let ghost prior = l@;
        mark_connection(&mut l, blocks, conns, broken, layout, ci);
        proof {
            assert forall|r: int, c: int|
                0 <= r < layout.n_v && 0 <= c < layout.n_w implies if wired(
                keys,
                conns@,
                broken@,
                *layout,
                ci + 1,
                r,
                c,
            ) {
                ones(#[trigger] l@[place(layout.n_w as int, r, c)])
            } else {
                zeros(l@[place(layout.n_w as int, r, c)])
            } by {
                lemma_connection_step(
                    keys,
                    conns@,
                    broken@,
                    *layout,
                    ci as int,
                    conns@[ci as int].targets@.len() as int,
                    r,
                    c,
                );
                let old_value = prior[place(layout.n_w as int, r, c)];
                assert(wired(keys, conns@, broken@, *layout, ci as int, r, c) ==> ones(old_value));
                assert(!wired(keys, conns@, broken@, *layout, ci as int, r, c) ==> zeros(
                    old_value,
                ));
            }
        }
        ci += 1;
    }
    l
}

} // verus!
