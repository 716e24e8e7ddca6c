//! How arguments of blocks are read and checked.

use vstd::prelude::*;

use crate::expr::{evaluates, val, Num, Term};
use crate::scalar::{zeros, Scalar};
use crate::text::{characters, same_text};

verus! {

/// Why an argument was refused.
#[derive(Debug, PartialEq, Eq)]
pub enum ArgumentError {
    OpenSlice,
    EmptySlice,
    /// A connection needs a source and a target.
    TooFewPorts,
    /// There must be at least one.
    Empty,
    /// Numbers of entries: as expected and as given.
    WrongCount { expected: usize, given: usize },
    /// A matrix must have as many rows and columns as there are states.
    NotSquare { states: usize, given: usize },
    /// Two lists must be of the same length.
    UnequalLengths,
    InvalidOperation(char),
    UnknownChoice(String),
    UnexpectedKeyword(String),
}

/// The indices from `start` up to `stop` in steps of `step`.
pub open spec fn stepped(start: int, stop: int, step: int) -> Seq<int>
    decreases
            if start < stop {
                stop - start
            } else {
                0
            },
{
    if step <= 0 || start >= stop {
        Seq::empty()
    } else {
        seq![start] + stepped(start + step, stop, step)
    }
}

/// The indices of a slice of ports. The slice must have an end, and not end at
/// zero; a step of zero counts as one.
pub fn port_slice(start: Option<usize>, stop: Option<usize>, step: Option<usize>) -> (r: Result<
    Vec<usize>,
    ArgumentError,
>)
    ensures
        match stop {
            None => r matches Err(ArgumentError::OpenSlice),
            Some(s) => if s == 0 {
                r matches Err(ArgumentError::EmptySlice)
            } else {
                r matches Ok(v) && v@.map_values(|i: usize| i as int) == stepped(
                    (match start {
                        Some(a) => a,
                        None => 0,
                    }) as int,
                    s as int,
                    (match step {
                        Some(0) => 1,
                        Some(d) => d,
                        None => 1,
                    }) as int,
                )
            },
        },
{
    let stop: usize = match stop {
        None => {
            return Err(ArgumentError::OpenSlice);
        },
        Some(s) => s,
    };
    if stop == 0 {
        return Err(ArgumentError::EmptySlice);
    }
    let start: usize = match start {
        Some(a) => a,
        None => 0,
    };
    let step: usize = match step {
        Some(0) => 1,
        Some(d) => d,
        None => 1,
    };
    let ghost all = stepped(start as int, stop as int, step as int);
    let mut r: Vec<usize> = Vec::new();
    let mut i: usize = start;
    let mut more: bool = start < stop;
    assert(r@.map_values(|k: usize| k as int) + all =~= all);
    while more
        invariant
            step >= 1,
            all == stepped(start as int, stop as int, step as int),
            more ==> i < stop,
            more ==> all == r@.map_values(|k: usize| k as int) + stepped(
                i as int,
                stop as int,
                step as int,
            ),
            !more ==> all == r@.map_values(|k: usize| k as int),
        decreases
                if more {
                    stop - i
                } else {
                    0
                },
    {
        let ghost before = r@.map_values(|k: usize| k as int);
        r.push(i);
        proof {
            assert(r@.map_values(|k: usize| k as int) =~= before.push(i as int));
            assert(before + (seq![i as int] + stepped(i + step, stop as int, step as int)) =~= (
            before.push(i as int)) + stepped(i + step, stop as int, step as int));
        }
        if step < stop - i {
            i = i + step;
        } else {
            more = false;
            assert(before.push(i as int) + Seq::<int>::empty() =~= before.push(i as int));
        }
    }
    Ok(r)
}

/// Whether a connection has enough ports: a source and a target.
pub fn check_connection(ports: usize) -> (r: Result<(), ArgumentError>)
    ensures
        r is Ok <==> ports >= 2,
        r is Err ==> r->Err_0 is TooFewPorts,
{
    if ports < 2 {
        Err(ArgumentError::TooFewPorts)
    } else {
        Ok(())
    }
}

/// Number of states of a system whose matrix has `len` entries: its root, if the
/// matrix is square, else one.
pub open spec fn state_count(len: nat) -> nat {
    if exists|n: nat| #[trigger] (n * n) == len {
        choose|n: nat| #[trigger] (n * n) == len
    } else {
        1
    }
}

/// A quotient of lengths; one if the divisor is zero.
pub open spec fn width(len: nat, n: nat) -> nat {
    if n == 0 {
        1
    } else {
        len / n
    }
}

proof fn lemma_root_unique(a: nat, b: nat)
    requires
        a * a == b * b,
    ensures
        a == b,
{
    if a < b {
        assert(a * a < b * b) by (nonlinear_arith)
            requires
                a < b,
        ;
    }
    if b < a {
        assert(b * b < a * a) by (nonlinear_arith)
            requires
                b < a,
        ;
    }
}

fn square_root(len: usize) -> (r: Option<usize>)
    ensures
        match r {
            Some(n) => n * n == len,
            None => forall|n: nat| #[trigger] (n * n) != len,
        },
{
    let mut n: usize = 0;
    while n <= len
        invariant
            n <= len + 1,
            forall|k: nat| k < n ==> #[trigger] (k * k) < len,
        decreases len + 1 - n,
    {
        proof {
            assert(n * n <= 0xFFFF_FFFF_FFFF_FFFF * 0xFFFF_FFFF_FFFF_FFFF) by (nonlinear_arith)
                requires
                    0 <= n <= 0xFFFF_FFFF_FFFF_FFFF,
            ;
        }
        let square: u128 = (n as u128) * (n as u128);
        if square == len as u128 {
            return Some(n);
        }
        if square > len as u128 {
            assert forall|k: nat| #[trigger] (k * k) != len by {
                if k >= n {
                    assert(k * k >= n * n) by (nonlinear_arith)
                        requires
                            k >= n,
                            n >= 0,
                    ;
                }
            }
            return None;
        }
        if n == usize::MAX {
            assert(n * n >= n) by (nonlinear_arith)
                requires
                    n >= 1,
            ;
            return None;
        }
        n += 1;
    }
    proof {
        assert forall|k: nat| #[trigger] (k * k) != len by {
            if k >= n {
                assert(k * k >= k) by (nonlinear_arith)
                    requires
                        k >= 1,
                ;
            }
        }
    }
    None
}

/// Numbers of states, inputs and outputs of a system given by matrices with these
/// numbers of entries.
pub fn state_space_dims(a_len: usize, b_len: usize, c_len: usize) -> (r: (usize, usize, usize))
    ensures
        r.0 == state_count(a_len as nat),
        r.1 == width(b_len as nat, r.0 as nat),
        r.2 == width(c_len as nat, r.0 as nat),
{
    let n: usize = match square_root(a_len) {
        Some(n) => {
            proof {
                assert((n as nat * n as nat) == a_len as nat);
                let c = choose|c: nat| #[trigger] (c * c) == a_len as nat;
                lemma_root_unique(n as nat, c);
            }
            n
        },
        None => 1,
    };
    if n == 0 {
        (n, 1, 1)
    } else {
        (n, b_len / n, c_len / n)
    }
}

/// Whether a mass matrix with `entries` entries fits `n` states.
pub fn check_mass(n: usize, entries: usize) -> (r: Result<usize, ArgumentError>)
    ensures
        n == 0 ==> r matches Err(ArgumentError::Empty),
        n > 0 && n * n == entries ==> r == Ok::<usize, ArgumentError>(entries),
        n > 0 && n * n != entries ==> r == Err::<usize, ArgumentError>(
            ArgumentError::NotSquare { states: n, given: entries },
        ),
{
    if n == 0 {
        return Err(ArgumentError::Empty);
    }
    match n.checked_mul(n) {
        Some(square) => {
            if square == entries {
                return Ok(entries);
            }
        },
        None => {},
    }
    Err(ArgumentError::NotSquare { states: n, given: entries })
}

/// Whether two lists that belong together are of the same length.
pub fn check_paired(a: usize, b: usize) -> (r: Result<(), ArgumentError>)
    ensures
        r is Ok <==> a == b,
        r is Err ==> r->Err_0 is UnequalLengths,
{
    if a != b {
        Err(ArgumentError::UnequalLengths)
    } else {
        Ok(())
    }
}

/// Whether poles and residues are there, and as many of one as of the other.
pub fn check_poles(poles: usize, residues: usize) -> (r: Result<(), ArgumentError>)
    ensures
        r is Ok <==> poles > 0 && poles == residues,
        poles == 0 ==> r matches Err(ArgumentError::Empty),
        poles > 0 && poles != residues ==> r matches Err(ArgumentError::UnequalLengths),
{
    if poles == 0 {
        return Err(ArgumentError::Empty);
    }
    check_paired(poles, residues)
}

/// Whether a band has exactly two edges.
pub fn check_band(edges: usize) -> (r: Result<(), ArgumentError>)
    ensures
        r is Ok <==> edges == 2,
        r is Err ==> r->Err_0 == (ArgumentError::WrongCount { expected: 2, given: edges }),
{
    if edges != 2 {
        Err(ArgumentError::WrongCount { expected: 2, given: edges })
    } else {
        Ok(())
    }
}

/// The first two of the given limits.
pub fn span_of<F: Copy>(values: &Vec<F>) -> (r: Result<(F, F), ArgumentError>)
    ensures
        values@.len() >= 2 ==> r == Ok::<(F, F), ArgumentError>((values@[0], values@[1])),
        values@.len() < 2 ==> r == Err::<(F, F), ArgumentError>(
            ArgumentError::WrongCount { expected: 2, given: values@.len() as usize },
        ),
{
    if values.len() >= 2 {
        Ok((values[0], values[1]))
    } else {
        Err(ArgumentError::WrongCount { expected: 2, given: values.len() })
    }
}

/// What a divider does on a zero denominator.
#[derive(Debug, Clone, Copy, PartialEq, Eq, Structural)]
pub enum ZeroDiv {
    Warn,
    Clamp,
    Raise,
}

/// Multiplication and division.
pub open spec fn is_operation(c: char) -> bool {
    c == '*' || c == '/'
}

/// Position `k` holds the first character that is no operation.
pub open spec fn first_invalid(s: Seq<char>, k: int) -> bool {
    0 <= k < s.len() && !is_operation(s[k]) && forall|j: int|
        0 <= j < k ==> is_operation(#[trigger] s[j])
}

/// The result of reading the arguments of a divider.
pub open spec fn divider_read(
    operations: Seq<char>,
    zero_div: Seq<char>,
    r: Result<ZeroDiv, ArgumentError>,
) -> bool {
    if exists|k: int| #[trigger] first_invalid(operations, k) {
        exists|k: int| #[trigger]
            first_invalid(operations, k) && r == Err::<ZeroDiv, ArgumentError>(
                ArgumentError::InvalidOperation(operations[k]),
            )
    } else if zero_div == "warn"@ {
        r == Ok::<ZeroDiv, ArgumentError>(ZeroDiv::Warn)
    } else if zero_div == "clamp"@ {
        r == Ok::<ZeroDiv, ArgumentError>(ZeroDiv::Clamp)
    } else if zero_div == "raise"@ {
        r == Ok::<ZeroDiv, ArgumentError>(ZeroDiv::Raise)
    } else {
        r matches Err(ArgumentError::UnknownChoice(x)) && x@ == zero_div
    }
}

/// Checks the operations of a divider and reads what it does on zero.
pub fn read_divider(operations: &str, zero_div: &str) -> (r: Result<ZeroDiv, ArgumentError>)
    ensures
        divider_read(operations@, zero_div@, r),
{
    let s: Vec<char> = characters(operations);
    let mut i: usize = 0;
    while i < s.len()
        invariant
            i <= s@.len(),
            s@ == operations@,
            forall|j: int| 0 <= j < i ==> is_operation(#[trigger] s@[j]),
        decreases s@.len() - i,
    {
        if s[i] != '*' && s[i] != '/' {
            assert(first_invalid(operations@, i as int));
            return Err(ArgumentError::InvalidOperation(s[i]));
        }
        i += 1;
    }
    if same_text(zero_div, "warn") {
        return Ok(ZeroDiv::Warn);
    }
    if same_text(zero_div, "clamp") {
        return Ok(ZeroDiv::Clamp);
    }
    if same_text(zero_div, "raise") {
        return Ok(ZeroDiv::Raise);
    }
    Err(ArgumentError::UnknownChoice(zero_div.to_owned()))
}

/// What a look-up table does beyond its ends.
#[derive(Debug, Clone, Copy, PartialEq, Eq, Structural)]
pub enum ExtrapMode {
    Extrapolate,
    Clamp,
}

/// Reads what a look-up table does beyond its ends.
pub fn read_fill(fill_value: &str) -> (r: Result<ExtrapMode, ArgumentError>)
    ensures
        if fill_value@ == "extrapolate"@ {
            r == Ok::<ExtrapMode, ArgumentError>(ExtrapMode::Extrapolate)
        } else if fill_value@ == "clamp"@ || fill_value@ == "clip"@ {
            r == Ok::<ExtrapMode, ArgumentError>(ExtrapMode::Clamp)
        } else {
            r matches Err(ArgumentError::UnknownChoice(x)) && x@ == fill_value@
        },
{
    if same_text(fill_value, "extrapolate") {
        return Ok(ExtrapMode::Extrapolate);
    }
    if same_text(fill_value, "clamp") || same_text(fill_value, "clip") {
        return Ok(ExtrapMode::Clamp);
    }
    Err(ArgumentError::UnknownChoice(fill_value.to_owned()))
}

/// Which interfaces an exported unit has: model exchange and co-simulation.
pub fn read_unit_kind(kind: &str) -> (r: Result<(bool, bool), ArgumentError>)
    ensures
        if kind@ == "both"@ {
            r == Ok::<(bool, bool), ArgumentError>((true, true))
        } else if kind@ == "me"@ {
            r == Ok::<(bool, bool), ArgumentError>((true, false))
        } else if kind@ == "cs"@ {
            r == Ok::<(bool, bool), ArgumentError>((false, true))
        } else {
            r matches Err(ArgumentError::UnknownChoice(x)) && x@ == kind@
        },
{
    proof {
        reveal_strlit("both");
        reveal_strlit("me");
        reveal_strlit("cs");
    }
    if same_text(kind, "both") {
        return Ok((true, true));
    }
    if same_text(kind, "me") {
        return Ok((true, false));
    }
    if same_text(kind, "cs") {
        return Ok((false, true));
    }
    Err(ArgumentError::UnknownChoice(kind.to_owned()))
}

/// Position `k` holds the first keyword that is not known.
pub open spec fn first_unknown(keys: Seq<&str>, k: int) -> bool {
    0 <= k < keys.len() && keys[k]@ != "tolerance_fpi"@ && forall|j: int|
        0 <= j < k ==> (#[trigger] keys[j])@ == "tolerance_fpi"@
}

/// Checks extra keywords: only a retired one is let pass. Tells whether it is there.
pub fn check_keywords(keys: &Vec<&str>) -> (r: Result<bool, ArgumentError>)
    ensures
        match r {
            Ok(retired) => {
                &&& forall|j: int| 0 <= j < keys@.len() ==> (#[trigger] keys@[j])@
                    == "tolerance_fpi"@
                &&& retired == (keys@.len() > 0)
            },
            Err(ArgumentError::UnexpectedKeyword(x)) => exists|k: int| #[trigger]
                first_unknown(keys@, k) && x@ == keys@[k]@,
            Err(_) => false,
        },
{
    let mut i: usize = 0;
    while i < keys.len()
        invariant
            i <= keys@.len(),
            forall|j: int| 0 <= j < i ==> (#[trigger] keys@[j])@ == "tolerance_fpi"@,
        decreases keys@.len() - i,
    {
        let key: &str = keys[i];
        if !same_text(key, "tolerance_fpi") {
            assert(first_unknown(keys@, i as int));
            return Err(ArgumentError::UnexpectedKeyword(key.to_owned()));
        }
        i += 1;
    }
    Ok(keys.len() > 0)
}

/// A rescaling: slope and offset, and the limits of the output.
#[derive(Debug, Clone, Copy)]
pub struct Rescaling<F> {
    pub slope: F,
    pub offset: F,
    pub low: F,
    pub high: F,
}

/// The slope of the line through two points.
pub open spec fn slope_formula<F>(i0: F, i1: F, o0: F, o1: F) -> Term<F> {
    val(o1).minus(val(o0)).over(val(i1).minus(val(i0)))
}

/// `r` rescales the inputs from `i0` to `i1` onto the outputs from `o0` to `o1`.
pub open spec fn rescales<F: Scalar>(i0: F, i1: F, o0: F, o1: F, r: Rescaling<F>) -> bool {
    &&& evaluates(slope_formula(i0, i1, o0, o1), r.slope)
    &&& evaluates(val(o0).minus(val(r.slope).times(val(i0))), r.offset)
    &&& evaluates(val(o0).smaller(val(o1)), r.low)
    &&& evaluates(val(o0).larger(val(o1)), r.high)
}

/// The rescaling of the inputs from `i0` to `i1` onto the outputs from `o0` to `o1`.
pub fn rescaling<F: Scalar>(i0: F, i1: F, o0: F, o1: F) -> (r: Rescaling<F>)
    ensures
        rescales(i0, i1, o0, o1, r),
{
    let slope: F = Num::of(o1).minus(Num::of(o0)).over(Num::of(i1).minus(Num::of(i0))).value;
    let offset: F = Num::of(o0).minus(Num::of(slope).times(Num::of(i0))).value;
    let low: F = Num::of(o0).smaller(Num::of(o1)).value;
    let high: F = Num::of(o0).larger(Num::of(o1)).value;
    Rescaling { slope, offset, low, high }
}

/// All rows one after the other.
pub open spec fn flat<F>(rows: Seq<Vec<F>>) -> Seq<F>
    decreases rows.len(),
{
    if rows.len() == 0 {
        Seq::empty()
    } else {
        flat(rows.drop_last()) + rows.last()@
    }
}

/// All rows one after the other.
pub fn flatten<F: Copy>(rows: &Vec<Vec<F>>) -> (r: Vec<F>)
    ensures
        r@ == flat(rows@),
{
    let mut r: Vec<F> = Vec::new();
    let mut i: usize = 0;
    assert(rows@.take(0) =~= Seq::empty());
    while i < rows.len()
        invariant
            i <= rows@.len(),
            r@ == flat(rows@.take(i as int)),
        decreases rows@.len() - i,
    {
        let ghost before = r@;
        let row: &Vec<F> = &rows[i];
        let mut j: usize = 0;
        while j < row.len()
            invariant
                j <= row@.len(),
                r@ == before + row@.take(j as int),
            decreases row@.len() - j,
        {
            r.push(row[j]);
            assert(row@.take(j + 1) =~= row@.take(j as int).push(row@[j as int]));
            j += 1;
        }
        proof {
            assert(row@.take(j as int) =~= row@);
            let t = rows@.take(i + 1);
            assert(t.drop_last() =~= rows@.take(i as int));
        }
        i += 1;
    }
    assert(rows@.take(i as int) =~= rows@);
    r
}

/// Entries of a matrix given by rows, and its numbers of rows and columns; the
/// first row tells the columns.
pub fn read_matrix<F: Copy>(rows: &Vec<Vec<F>>) -> (r: (Vec<F>, usize, usize))
    ensures
        r.0@ == flat(rows@),
        r.1 == rows@.len(),
        r.2 == (if rows@.len() > 0 {
            rows@[0]@.len()
        } else {
            0
        }),
{
    let cols: usize = if rows.len() > 0 {
        rows[0].len()
    } else {
        0
    };
    (flatten(rows), rows.len(), cols)
}

/// The samples of channel `ch`: those of the records that have it, in order.
pub open spec fn channel<F>(data: Seq<Vec<F>>, ch: int) -> Seq<F>
    decreases data.len(),
{
    if data.len() == 0 {
        Seq::empty()
    } else {
        let rest = channel(data.drop_last(), ch);
        if ch < data.last()@.len() {
            rest.push(data.last()@[ch])
        } else {
            rest
        }
    }
}

/// Number of channels: that of the first record.
pub open spec fn channel_count<F>(data: Seq<Vec<F>>) -> nat {
    if data.len() > 0 {
        data[0]@.len()
    } else {
        0
    }
}

/// The records by channel; the first record tells the number of channels.
pub fn channels<F: Copy>(data: &Vec<Vec<F>>) -> (r: Vec<Vec<F>>)
    ensures
        r@.len() == channel_count(data@),
        forall|ch: int| 0 <= ch < r@.len() ==> (#[trigger] r@[ch])@ == channel(data@, ch),
{
    let n: usize = if data.len() > 0 {
        data[0].len()
    } else {
        0
    };
    let mut r: Vec<Vec<F>> = Vec::new();
    let mut c: usize = 0;
    while c < n
        invariant
            c <= n,
            n == channel_count(data@),
            r@.len() == c,
            forall|ch: int| 0 <= ch < c ==> (#[trigger] r@[ch])@ == channel(data@, ch),
        decreases n - c,
    {
        let mut one: Vec<F> = Vec::new();
        let mut i: usize = 0;
        assert(data@.take(0) =~= Seq::empty());
        while i < data.len()
            invariant
                i <= data@.len(),
                one@ == channel(data@.take(i as int), c as int),
            decreases data@.len() - i,
        {
            let sample: &Vec<F> = &data[i];
            if c < sample.len() {
                one.push(sample[c]);
            }
            proof {
                let t = data@.take(i + 1);
                assert(t.drop_last() =~= data@.take(i as int));
            }
            i += 1;
        }
        assert(data@.take(i as int) =~= data@);
        r.push(one);
        c += 1;
    }
    r
}

/// The values, if there are as many as expected; else zeros, and a mismatch.
pub fn checked_values<F: Scalar>(values: Vec<F>, expected: usize) -> (r: (Vec<F>, bool))
    ensures
        r.1 == (values@.len() != expected),
        values@.len() == expected ==> r.0@ == values@,
        values@.len() != expected ==> r.0@.len() == expected && forall|i: int|
            0 <= i < expected ==> zeros(#[trigger] r.0@[i]),
{
    if values.len() == expected {
        return (values, false);
    }
    let mut out: Vec<F> = Vec::new();
    let mut i: usize = 0;
    while i < expected
        invariant
            i <= expected,
            out@.len() == i,
            forall|k: int| 0 <= k < i ==> zeros(#[trigger] out@[k]),
        decreases expected - i,
    {
        out.push(F::zero());
        i += 1;
    }
    (out, true)
}

/// A start value: one for the whole variable, or one per element.
#[derive(Debug)]
pub enum StartOverride<F> {
    Scalar(F),
    Vector(Vec<F>),
}

/// The values of a start value.
pub fn start_values<F: Copy>(o: StartOverride<F>) -> (r: Vec<F>)
    ensures
        r@ == (match o {
            StartOverride::Scalar(x) => seq![x],
            StartOverride::Vector(v) => v@,
        }),
{
    match o {
        StartOverride::Scalar(x) => vec![x],
        StartOverride::Vector(v) => v,
    }
}

/// If every record has all channels, channel `ch` has one sample per record, and
/// sample `i` of it is entry `ch` of record `i`.
pub proof fn law_channels_transpose<F>(data: Seq<Vec<F>>, ch: int, i: int)
    requires
        0 <= ch < channel_count(data),
        forall|k: int| 0 <= k < data.len() ==> (#[trigger] data[k])@.len() == channel_count(data),
        0 <= i < data.len(),
    ensures
        channel(data, ch).len() == data.len(),
        channel(data, ch)[i] == data[i]@[ch],
{
    lemma_channel(data, channel_count(data), ch);
}

proof fn lemma_channel<F>(data: Seq<Vec<F>>, n: nat, ch: int)
    requires
        0 <= ch < n,
        forall|k: int| 0 <= k < data.len() ==> (#[trigger] data[k])@.len() == n,
    ensures
        channel(data, ch).len() == data.len(),
        forall|i: int| 0 <= i < data.len() ==> #[trigger] channel(data, ch)[i] == data[i]@[ch],
    decreases data.len(),
{
    if data.len() > 0 {
        lemma_channel(data.drop_last(), n, ch);
    }
}

/// The slice of all ports up to `stop` is every index below `stop`.
pub proof fn law_full_slice(stop: nat, i: int)
    requires
        0 <= i < stop,
    ensures
        stepped(0, stop as int, 1).len() == stop,
        stepped(0, stop as int, 1)[i] == i,
{
    lemma_unit_steps(0, stop as int);
}

proof fn lemma_unit_steps(start: int, stop: int)
    requires
        start <= stop,
    ensures
        stepped(start, stop, 1) =~= Seq::new((stop - start) as nat, |i: int| start + i),
    decreases stop - start,
{
    if start < stop {
        lemma_unit_steps(start + 1, stop);
    }
}

} // verus!
