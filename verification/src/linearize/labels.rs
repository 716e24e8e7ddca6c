//! Names for the rows and columns of an assembled model.

use vstd::prelude::*;
use vstd::string::StringExecFns;

use crate::text::{
    decimal, joined, lemma_decimal_digits, lemma_decimal_injective, lemma_decimal_len, numbered,
    push_decimal,
};

verus! {

/// The contents of a list of strings.
pub open spec fn texts(v: Seq<String>) -> Seq<Seq<char>> {
    v.map_values(|s: String| s@)
}

/// How many of the first `n` kinds are `kind`.
pub open spec fn kind_count(kinds: Seq<Seq<char>>, kind: Seq<char>, n: int) -> nat
    decreases n,
{
    if n <= 0 {
        0
    } else {
        kind_count(kinds, kind, n - 1) + if kinds[n - 1] == kind {
            1nat
        } else {
            0nat
        }
    }
}

/// Name of block `i`: its kind, and its number among the blocks of that kind.
pub open spec fn key_text(kinds: Seq<Seq<char>>, i: int) -> Seq<char> {
    kinds[i] + "_"@ + decimal(kind_count(kinds, kinds[i], i))
}

/// Names of all blocks.
pub open spec fn key_texts(kinds: Seq<Seq<char>>) -> Seq<Seq<char>> {
    Seq::new(kinds.len(), |i: int| key_text(kinds, i))
}

/// One name per block, counted over all blocks of the same kind, so that states,
/// inputs and outputs name a block alike.
pub fn block_keys(kinds: &Vec<String>) -> (keys: Vec<String>)
    ensures
        texts(keys@) == key_texts(texts(kinds@)),
{
    let ghost all = texts(kinds@);
    let mut keys: Vec<String> = Vec::with_capacity(kinds.len());
    let mut i: usize = 0;
    while i < kinds.len()
        invariant
            i <= kinds.len(),
            all == texts(kinds@),
            keys@.len() == i,
            forall|k: int| 0 <= k < i ==> (#[trigger] keys@[k])@ == key_text(all, k),
        decreases kinds.len() - i,
    {
        let mut count: usize = 0;
        let mut j: usize = 0;
        while j < i
            invariant
                j <= i < kinds@.len(),
                all == texts(kinds@),
                count == kind_count(all, all[i as int], j as int),
                count <= j,
            decreases i - j,
        {
            assert(all[j as int] == kinds@[j as int]@ && all[i as int] == kinds@[i as int]@);
            if kinds[j] == kinds[i] {
                count += 1;
            }
            j += 1;
        }
        assert(all[i as int] == kinds@[i as int]@);
        let stem: String = joined(kinds[i].as_str(), "_");
        keys.push(numbered(stem.as_str(), count));
        i += 1;
    }
    assert(texts(keys@) =~= key_texts(all));
    keys
}

proof fn lemma_kind_count_grows(kinds: Seq<Seq<char>>, kind: Seq<char>, i: int, j: int)
    requires
        0 <= i <= j,
    ensures
        kind_count(kinds, kind, i) <= kind_count(kinds, kind, j),
    decreases j - i,
{
    if i < j {
        lemma_kind_count_grows(kinds, kind, i, j - 1);
    }
}

proof fn lemma_suffix_splits(a: Seq<char>, m: nat, b: Seq<char>, n: nat)
    requires
        a + "_"@ + decimal(m) == b + "_"@ + decimal(n),
    ensures
        a == b,
        m == n,
{
    reveal_strlit("_");
    let left = a + "_"@ + decimal(m);
    let right = b + "_"@ + decimal(n);
    lemma_decimal_digits(m);
    lemma_decimal_digits(n);
    assert("_"@.len() == 1 && "_"@[0] == '_');
    assert(left.len() == a.len() + 1 + decimal(m).len());
    assert(right.len() == b.len() + 1 + decimal(n).len());
    assert(left[a.len() as int] == '_');
    assert(right[b.len() as int] == '_');
    lemma_decimal_len(m);
    lemma_decimal_len(n);
    if a.len() < b.len() {
        let at = b.len() - a.len() - 1;
        assert(left[b.len() as int] == decimal(m)[at] && 0 <= at < decimal(m).len());
    }
    if b.len() < a.len() {
        let at = a.len() - b.len() - 1;
        assert(right[a.len() as int] == decimal(n)[at] && 0 <= at < decimal(n).len());
    }
    assert(a.len() == b.len());
    assert(a =~= left.take(a.len() as int));
    assert(b =~= right.take(b.len() as int));
    assert(decimal(m) =~= left.skip(a.len() as int + 1));
    assert(decimal(n) =~= right.skip(b.len() as int + 1));
    lemma_decimal_injective(m, n);
}

/// No two blocks have the same name.
pub proof fn law_block_keys_unique(kinds: Seq<Seq<char>>, i: int, j: int)
    requires
        0 <= i < j < kinds.len(),
    ensures
        key_texts(kinds)[i] != key_texts(kinds)[j],
{
    if key_text(kinds, i) == key_text(kinds, j) {
        lemma_suffix_splits(
            kinds[i],
            kind_count(kinds, kinds[i], i),
            kinds[j],
            kind_count(kinds, kinds[j], j),
        );
        lemma_kind_count_grows(kinds, kinds[i], i + 1, j);
    }
}

/// Names of the states of one block: its own name if it has one state, else its
/// name with an index.
pub open spec fn state_texts_of(key: Seq<char>, nx: int) -> Seq<Seq<char>> {
    if nx == 1 {
        seq![key]
    } else {
        Seq::new(nx as nat, |i: int| key + "["@ + decimal(i as nat) + "]"@)
    }
}

/// Names of the states of all blocks, in the order of the layout.
pub open spec fn state_texts(layout: Seq<(usize, usize)>, keys: Seq<Seq<char>>) -> Seq<Seq<char>>
    decreases layout.len(),
{
    if layout.len() == 0 {
        Seq::empty()
    } else {
        state_texts(layout.drop_last(), keys) + state_texts_of(
            keys[layout.last().0 as int],
            layout.last().1 as int,
        )
    }
}

fn push_states(labels: &mut Vec<String>, key: &String, nx: usize)
    ensures
        texts(final(labels)@) == texts(old(labels)@) + state_texts_of(key@, nx as int),
{
    let ghost before = labels@;
    if nx == 1 {
        labels.push(key.clone());
        assert(texts(labels@) =~= texts(before) + state_texts_of(key@, nx as int));
        return;
    }
    let mut i: usize = 0;
    while i < nx
        invariant
            i <= nx,
            labels@.len() == before.len() + i,
            forall|k: int| 0 <= k < before.len() ==> #[trigger] labels@[k] == before[k],
            forall|k: int|
                0 <= k < i ==> (#[trigger] labels@[before.len() + k])@ == key@ + "["@ + decimal(
                    k as nat,
                ) + "]"@,
        decreases nx - i,
    {
        let mut label: String = joined(key.as_str(), "[");
        push_decimal(&mut label, i);
        label.append("]");
        let ghost prior = labels@;
        labels.push(label);
        proof {
            assert forall|k: int| 0 <= k < i + 1 implies (#[trigger] labels@[before.len() + k])@
                == key@ + "["@ + decimal(k as nat) + "]"@ by {
                if k < i {
                    assert(labels@[before.len() + k] == prior[before.len() + k]);
                }
            }
        }
        i += 1;
    }
    proof {
        let want = texts(before) + state_texts_of(key@, nx as int);
        assert forall|k: int| 0 <= k < want.len() implies texts(labels@)[k] == want[k] by {
            if k >= before.len() {
                assert(labels@[before.len() + (k - before.len())]@ == want[k]);
            } else {
                assert(labels@[k] == before[k]);
            }
        }
        assert(texts(labels@) =~= want);
    }
}

/// Names of the states in the order of the layout, which lists blocks and their
/// numbers of states.
pub fn state_labels(layout: &Vec<(usize, usize)>, keys: &Vec<String>) -> (labels: Vec<String>)
    requires
        forall|k: int| 0 <= k < layout@.len() ==> (#[trigger] layout@[k]).0 < keys@.len(),
    ensures
        texts(labels@) == state_texts(layout@, texts(keys@)),
{
    let mut labels: Vec<String> = Vec::new();
    let mut k: usize = 0;
    assert(texts(labels@) =~= state_texts(layout@.take(0), texts(keys@)));
    while k < layout.len()
        invariant
            k <= layout.len(),
            forall|q: int| 0 <= q < layout@.len() ==> (#[trigger] layout@[q]).0 < keys@.len(),
            texts(labels@) == state_texts(layout@.take(k as int), texts(keys@)),
        decreases layout.len() - k,
    {
        let (block, nx): (usize, usize) = layout[k];
        assert(layout@.take(k + 1).drop_last() =~= layout@.take(k as int));
        assert(texts(keys@)[block as int] == keys@[block as int]@);
        push_states(&mut labels, &keys[block], nx);
        k += 1;
    }
    assert(layout@.take(k as int) =~= layout@);
    labels
}

/// Name of a port by its block, or a dash for none.
pub open spec fn port_text(owner: Option<usize>, keys: Seq<Seq<char>>) -> Seq<char> {
    match owner {
        Some(b) => keys[b as int],
        None => "-"@,
    }
}

/// Names of ports by their blocks.
pub fn port_labels(owners: &Vec<Option<usize>>, keys: &Vec<String>) -> (labels: Vec<String>)
    requires
        forall|k: int|
            0 <= k < owners@.len() ==> ((#[trigger] owners@[k]) matches Some(b) ==> b
                < keys@.len()),
    ensures
        labels@.len() == owners@.len(),
        forall|k: int|
            0 <= k < labels@.len() ==> (#[trigger] labels@[k])@ == port_text(
                owners@[k],
                texts(keys@),
            ),
{
    let mut labels: Vec<String> = Vec::with_capacity(owners.len());
    let mut k: usize = 0;
    while k < owners.len()
        invariant
            k <= owners.len(),
            forall|q: int|
                0 <= q < owners@.len() ==> ((#[trigger] owners@[q]) matches Some(b) ==> b
                    < keys@.len()),
            labels@.len() == k,
            forall|q: int|
                0 <= q < k ==> (#[trigger] labels@[q])@ == port_text(owners@[q], texts(keys@)),
        decreases owners.len() - k,
    {
        match owners[k] {
            Some(b) => {
                assert(texts(keys@)[b as int] == keys@[b as int]@);
                labels.push(keys[b].clone());
            },
            None => labels.push("-".to_owned()),
        }
        k += 1;
    }
    labels
}

} // verus!
