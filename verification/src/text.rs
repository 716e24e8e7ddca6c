//! Decimal numerals and the small pieces of text that names are made of.

use vstd::prelude::*;
use vstd::string::{StrSliceExecFns, StringExecFns};

verus! {

/// The character of a decimal digit.
pub open spec fn digit(d: nat) -> char {
    (48 + d) as char
}

/// The decimal numeral of `n`, without leading zeros.
pub open spec fn decimal(n: nat) -> Seq<char>
    decreases n,
{
    if n < 10 {
        seq![digit(n)]
    } else {
        decimal(n / 10).push(digit(n % 10))
    }
}

fn digit_text(d: usize) -> (r: &'static str)
    requires
        d < 10,
    ensures
        r@ == seq![digit(d as nat)],
{
    proof {
        reveal_strlit("0");
        reveal_strlit("1");
        reveal_strlit("2");
        reveal_strlit("3");
        reveal_strlit("4");
        reveal_strlit("5");
        reveal_strlit("6");
        reveal_strlit("7");
        reveal_strlit("8");
        reveal_strlit("9");
    }
    if d == 0 {
        "0"
    } else if d == 1 {
        "1"
    } else if d == 2 {
        "2"
    } else if d == 3 {
        "3"
    } else if d == 4 {
        "4"
    } else if d == 5 {
        "5"
    } else if d == 6 {
        "6"
    } else if d == 7 {
        "7"
    } else if d == 8 {
        "8"
    } else {
        "9"
    }
}

/// Appends the decimal numeral of `n`.
pub fn push_decimal(s: &mut String, n: usize)
    ensures
        final(s)@ == old(s)@ + decimal(n as nat),
    decreases n,
{
    if n >= 10 {
        push_decimal(s, n / 10);
    }
    s.append(digit_text(n % 10));
}

/// `prefix` followed by the decimal numeral of `n`.
pub fn numbered(prefix: &str, n: usize) -> (r: String)
    ensures
        r@ == prefix@ + decimal(n as nat),
{
    let mut r: String = prefix.to_owned();
    push_decimal(&mut r, n);
    r
}

/// `a` followed by `b`.
pub fn joined(a: &str, b: &str) -> (r: String)
    ensures
        r@ == a@ + b@,
{
    let mut r: String = a.to_owned();
    r.append(b);
    r
}

/// Whether two texts are the same.
pub fn same_text(a: &str, b: &str) -> (r: bool)
    ensures
        r == (a@ == b@),
{
    let p: String = a.to_owned();
    let q: String = b.to_owned();
    p == q
}

/// The characters of a text.
pub fn characters(s: &str) -> (r: Vec<char>)
    ensures
        r@ == s@,
{
    let n: usize = s.unicode_len();
    let mut r: Vec<char> = Vec::new();
    let mut i: usize = 0;
    while i < n
        invariant
            i <= n,
            n == s@.len(),
            r@ == s@.take(i as int),
        decreases n - i,
    {
        r.push(s.get_char(i));
        assert(s@.take(i + 1) =~= s@.take(i as int).push(s@[i as int]));
        i += 1;
    }
    assert(s@.take(i as int) =~= s@);
    r
}

/// The number of a character.
pub fn code_point(c: char) -> (r: u32)
    ensures
        r as int == c as int,
{
    c as u32
}

/// A letter from `a` to `z` as a capital; any other character as it is.
pub open spec fn capital(c: char) -> char {
    if 97 <= c as int && c as int <= 122 {
        (c as int - 32) as char
    } else {
        c
    }
}

/// A text with its letters from `a` to `z` as capitals.
pub open spec fn capitals(s: Seq<char>) -> Seq<char> {
    Seq::new(s.len(), |i: int| capital(s[i]))
}

/// Whether `a`, with its letters from `a` to `z` as capitals, is `b`.
pub fn same_capitals(a: &str, b: &str) -> (r: bool)
    ensures
        r == (capitals(a@) == b@),
{
    let p: Vec<char> = characters(a);
    let q: Vec<char> = characters(b);
    if p.len() != q.len() {
        return false;
    }
    let mut i: usize = 0;
    while i < p.len()
        invariant
            i <= p@.len(),
            p@.len() == q@.len(),
            p@ == a@,
            q@ == b@,
            forall|k: int| 0 <= k < i ==> capital(p@[k]) == #[trigger] q@[k],
        decreases p@.len() - i,
    {
        let c: u32 = code_point(p[i]);
        let big: u32 = if 97 <= c && c <= 122 {
            c - 32
        } else {
            c
        };
        if big != code_point(q[i]) {
            assert(capitals(a@)[i as int] != b@[i as int]);
            return false;
        }
        i += 1;
    }
    assert(capitals(a@) =~= b@);
    true
}

/// The value of a numeral of decimal digits, read from the left.
pub open spec fn digits_value(s: Seq<char>) -> nat
    decreases s.len(),
{
    if s.len() == 0 {
        0
    } else {
        digits_value(s.drop_last()) * 10 + (s.last() as int - 48) as nat
    }
}

/// A nonempty text of decimal digits.
pub open spec fn all_digits(s: Seq<char>) -> bool {
    s.len() > 0 && forall|i: int|
        0 <= i < s.len() ==> 48 <= (#[trigger] s[i]) as int && s[i] as int <= 57
}

/// The text without a leading plus sign.
pub open spec fn unsigned_part(s: Seq<char>) -> Seq<char> {
    if s.len() > 0 && s[0] == '+' {
        s.skip(1)
    } else {
        s
    }
}

/// The number that a text stands for, if it is a numeral and small enough.
pub open spec fn number_of(s: Seq<char>) -> Option<u32> {
    let d = unsigned_part(s);
    if all_digits(d) && digits_value(d) <= u32::MAX {
        Some(digits_value(d) as u32)
    } else {
        None
    }
}

/// More digits do not make a number smaller.
pub proof fn lemma_digits_grow(s: Seq<char>, k: int)
    requires
        all_digits(s),
        0 <= k <= s.len(),
    ensures
        digits_value(s.take(k)) <= digits_value(s),
    decreases s.len() - k,
{
    if k < s.len() {
        let t = s.take(k + 1);
        assert(t.drop_last() =~= s.take(k));
        assert(48 <= s[k] as int);
        assert(digits_value(t) >= digits_value(s.take(k)));
        lemma_digits_grow(s, k + 1);
    } else {
        assert(s.take(k) =~= s);
    }
}

/// The number that the characters of `s` from `from` up to `to` stand for.
pub fn parse_number(s: &Vec<char>, from: usize, to: usize) -> (r: Option<u32>)
    requires
        from <= to <= s@.len(),
    ensures
        r == number_of(s@.subrange(from as int, to as int)),
{
    let ghost whole = s@.subrange(from as int, to as int);
    let start: usize = if from < to && s[from] == '+' {
        from + 1
    } else {
        from
    };
    let ghost d = unsigned_part(whole);
    assert(d =~= s@.subrange(start as int, to as int));
    if start == to {
        return None;
    }
    let mut value: u32 = 0;
    let mut i: usize = start;
    while i < to
        invariant
            start <= i <= to <= s@.len(),
            start < to,
            d == s@.subrange(start as int, to as int),
            d == unsigned_part(whole),
            whole == s@.subrange(from as int, to as int),
            forall|k: int| start <= k < i ==> 48 <= (#[trigger] s@[k]) as int && s@[k] as int <= 57,
            value == digits_value(d.take(i - start)),
        decreases to - i,
    {
        let c: u32 = code_point(s[i]);
        if c < 48 || c > 57 {
            assert(!(48 <= d[i - start] as int && d[i - start] as int <= 57));
            return None;
        }
        let x: u64 = (value as u64) * 10 + ((c - 48) as u64);
        proof {
            let t = d.take(i - start + 1);
            assert(t.drop_last() =~= d.take(i - start));
            assert(t.last() == s@[i as int]);
            assert(digits_value(t) == x);
        }
        if x > 0xFFFF_FFFF {
            proof {
                if all_digits(d) {
                    lemma_digits_grow(d, i - start + 1);
                }
            }
            return None;
        }
        value = x as u32;
        i += 1;
    }
    proof {
        assert(d.take(to - start) =~= d);
        assert forall|k: int| 0 <= k < d.len() implies 48 <= (#[trigger] d[k]) as int && d[k] as int
            <= 57 by {
            assert(d[k] == s@[start + k]);
        }
    }
    Some(value)
}

/// Different numbers have different numerals.
pub proof fn lemma_decimal_injective(a: nat, b: nat)
    requires
        decimal(a) == decimal(b),
    ensures
        a == b,
    decreases a,
{
    if a < 10 || b < 10 {
        lemma_decimal_len(a);
        lemma_decimal_len(b);
        if a < 10 && b < 10 {
            assert(decimal(a)[0] == digit(a) && decimal(b)[0] == digit(b));
        }
    } else {
        assert(decimal(a).drop_last() =~= decimal(a / 10));
        assert(decimal(b).drop_last() =~= decimal(b / 10));
        assert(decimal(a).last() == digit(a % 10) && decimal(b).last() == digit(b % 10));
        lemma_decimal_injective(a / 10, b / 10);
    }
}

/// A numeral has one digit exactly if the number is below ten.
pub proof fn lemma_decimal_len(n: nat)
    ensures
        decimal(n).len() >= 1,
        decimal(n).len() == 1 <==> n < 10,
    decreases n,
{
    if n >= 10 {
        lemma_decimal_len(n / 10);
    }
}

/// A numeral holds nothing but decimal digits.
pub proof fn lemma_decimal_digits(n: nat)
    ensures
        forall|i: int|
            0 <= i < decimal(n).len() ==> 48 <= (#[trigger] decimal(n)[i]) as int && decimal(n)[i] as int
                <= 57,
    decreases n,
{
    if n >= 10 {
        lemma_decimal_digits(n / 10);
        assert forall|i: int| 0 <= i < decimal(n).len() implies 48 <= (
        #[trigger] decimal(n)[i]) as int && decimal(n)[i] as int <= 57 by {
            if i < decimal(n / 10).len() {
                assert(decimal(n)[i] == decimal(n / 10)[i]);
            }
        }
    }
}

} // verus!
