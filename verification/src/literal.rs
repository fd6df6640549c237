//! The lexical grammar of query literals: integers and floating-point
//! numbers as Rust's `str::parse` reads them, and UTF-8 byte lengths.
//!
//! A floating-point literal is recognised here and kept as text; turning it
//! into a number is left to the caller.
use vstd::prelude::*;
use crate::text::{char_pos, find_char, lemma_char_pos, slice_chars};

verus! {

/// An ASCII decimal digit.
pub open spec fn is_digit(c: char) -> bool {
    48 <= (c as u32) <= 57
}

/// Every character is an ASCII decimal digit.
pub open spec fn all_digits(s: Seq<char>) -> bool {
    forall|i: int| 0 <= i < s.len() ==> is_digit(#[trigger] s[i])
}

/// The value of a string of decimal digits.
pub open spec fn digits_value(s: Seq<char>) -> int
    decreases s.len(),
{
    if s.len() == 0 {
        0
    } else {
        digits_value(s.drop_last()) * 10 + ((s.last() as u32) - 48)
    }
}

/// `s` without one leading `+` or `-`.
pub open spec fn unsigned_part(s: Seq<char>) -> Seq<char> {
    if s.len() > 0 && (s[0] == '+' || s[0] == '-') {
        s.drop_first()
    } else {
        s
    }
}

/// What `str::parse::<i64>` reads: an optional sign, one or more digits,
/// and a value in range.
pub open spec fn i64_literal(s: Seq<char>) -> Option<i64> {
    let body = unsigned_part(s);
    if body.len() > 0 && all_digits(body) {
        let v = if s[0] == '-' { -digits_value(body) } else { digits_value(body) };
        if i64::MIN <= v <= i64::MAX {
            Some(v as i64)
        } else {
            None
        }
    } else {
        None
    }
}

proof fn lemma_digits_prefix(s: Seq<char>, i: int)
    requires
        0 <= i <= s.len(),
        all_digits(s),
    ensures
        0 <= digits_value(s.take(i)) <= digits_value(s),
    decreases s.len() - i,
{
    if i < s.len() {
        lemma_digits_prefix(s, i + 1);
        let t = s.take(i + 1);
        assert(t.drop_last() =~= s.take(i));
        assert(is_digit(s[i]));
        lemma_digits_nonneg(s.take(i));
    } else {
        assert(s.take(i) =~= s);
        lemma_digits_nonneg(s);
    }
}

proof fn lemma_digits_nonneg(s: Seq<char>)
    requires
        all_digits(s),
    ensures
        digits_value(s) >= 0,
    decreases s.len(),
{
    if s.len() > 0 {
        lemma_digits_nonneg(s.drop_last());
        assert(is_digit(s.last()));
    }
}

/// Reads an integer literal (see `i64_literal`).
pub fn parse_i64(s: &Vec<char>) -> (r: Option<i64>)
    ensures
        r == i64_literal(s@),
{
    let start: usize = if s.len() > 0 && (s[0] == '+' || s[0] == '-') {
        1
    } else {
        0
    };
    let ghost body = unsigned_part(s@);
    assert(body =~= s@.skip(start as int));
    if start >= s.len() {
        return None;
    }
    let limit: u128 = 0x8000_0000_0000_0000;
    let mut acc: u128 = 0;
    let mut i: usize = start;
    while i < s.len()
        invariant
            start <= i <= s.len(),
            body == s@.skip(start as int),
            body == unsigned_part(s@),
            start < s.len(),
            forall|j: int| 0 <= j < i - start ==> is_digit(#[trigger] body[j]),
            acc == digits_value(body.take(i - start)),
            limit == 0x8000_0000_0000_0000,
            acc <= limit,
        decreases s.len() - i,
    {
        let u = s[i] as u32;
        assert(body[i - start] == s@[i as int]);
        if u < 48 || u > 57 {
            assert(!is_digit(body[i - start]));
            return None;
        }
        assert(body.take(i - start + 1).drop_last() =~= body.take(i - start));
        assert(body.take(i - start + 1).last() == s@[i as int]);
        acc = acc * 10 + (u - 48) as u128;
        i = i + 1;
        if acc > limit {
            proof {
                if all_digits(body) {
                    lemma_digits_prefix(body, i - start);
                }
            }
            return None;
        }
    }
    assert(body.take(i - start) =~= body);
    assert(all_digits(body));
    if s[0] == '-' {
        Some((0 - (acc as i128)) as i64)
    } else if acc <= 0x7fff_ffff_ffff_ffff {
        Some(acc as i64)
    } else {
        None
    }
}

/// `s` with its ASCII letters in lowercase.
pub open spec fn lower_ascii(s: Seq<char>) -> Seq<char> {
    s.map_values(|c: char| if 65 <= (c as u32) <= 90 { ((c as u32) + 32) as char } else { c })
}

/// The position of the first `e` or `E`, or the length.
pub open spec fn exp_pos(s: Seq<char>) -> int
    decreases s.len(),
{
    if s.len() == 0 {
        0
    } else if s[0] == 'e' || s[0] == 'E' {
        0
    } else {
        1 + exp_pos(s.drop_first())
    }
}

/// `Digit+ | Digit+ '.' Digit* | Digit* '.' Digit+`.
pub open spec fn is_mantissa(m: Seq<char>) -> bool {
    let d = char_pos(m, '.');
    if d >= m.len() {
        m.len() > 0 && all_digits(m)
    } else {
        all_digits(m.take(d)) && all_digits(m.skip(d + 1)) && (d > 0 || m.len() > d + 1)
    }
}

/// `Sign? Digit+`.
pub open spec fn is_exponent(e: Seq<char>) -> bool {
    let b = unsigned_part(e);
    b.len() > 0 && all_digits(b)
}

/// `Number ::= Mantissa Exp?` with `Exp ::= ('e' | 'E') Sign? Digit+`.
pub open spec fn is_number(b: Seq<char>) -> bool {
    let p = exp_pos(b);
    is_mantissa(b.take(p)) && (p < b.len() ==> is_exponent(b.skip(p + 1)))
}

/// What `str::parse::<f64>` accepts: an optional sign, then `inf`,
/// `infinity` or `nan` in any case, or a decimal number.
pub open spec fn is_float_literal(s: Seq<char>) -> bool {
    let body = unsigned_part(s);
    let l = lower_ascii(body);
    ||| l == seq!['i', 'n', 'f']
    ||| l == seq!['i', 'n', 'f', 'i', 'n', 'i', 't', 'y']
    ||| l == seq!['n', 'a', 'n']
    ||| is_number(body)
}

fn digits_only(s: &Vec<char>, from: usize, to: usize) -> (r: bool)
    requires
        from <= to <= s@.len(),
    ensures
        r == all_digits(s@.subrange(from as int, to as int)),
{
    let mut i = from;
    while i < to
        invariant
            from <= i <= to <= s@.len(),
            forall|j: int| from <= j < i ==> is_digit(#[trigger] s@[j]),
        decreases to - i,
    {
        let u = s[i] as u32;
        if u < 48 || u > 57 {
            assert(!is_digit(s@.subrange(from as int, to as int)[i - from]));
            return false;
        }
        i = i + 1;
    }
    assert forall|j: int| 0 <= j < to - from implies is_digit(#[trigger] s@.subrange(from as int, to as int)[j]) by {
        assert(s@.subrange(from as int, to as int)[j] == s@[from + j]);
    }
    true
}

fn lower_chars(s: &Vec<char>) -> (r: Vec<char>)
    ensures
        r@ == lower_ascii(s@),
{
    let mut out: Vec<char> = Vec::new();
    let mut i: usize = 0;
    while i < s.len()
        invariant
            i <= s.len(),
            out@ == lower_ascii(s@).take(i as int),
        decreases s.len() - i,
    {
        let c = s[i];
        let u = c as u32;
        let l = if 65 <= u && u <= 90 {
            let v: u8 = (u + 32) as u8;
            let l = v as char;
            proof {
                vstd::utf8::char_u32_cast(l, v as u32);
            }
            l
        } else {
            c
        };
        out.push(l);
        i = i + 1;
        assert(out@ =~= lower_ascii(s@).take(i as int));
    }
    assert(lower_ascii(s@).take(i as int) =~= lower_ascii(s@));
    out
}

fn same_chars(a: &Vec<char>, w: &[char]) -> (r: bool)
    ensures
        r == (a@ == w@),
{
    if a.len() != w.len() {
        return false;
    }
    let mut i: usize = 0;
    while i < a.len()
        invariant
            a.len() == w@.len(),
            i <= a.len(),
            forall|j: int| 0 <= j < i ==> a@[j] == w@[j],
        decreases a.len() - i,
    {
        if a[i] != w[i] {
            return false;
        }
        i = i + 1;
    }
    assert(a@ =~= w@);
    true
}

/// Whether `s` is a floating-point literal (see `is_float_literal`).
pub fn is_float_text(s: &Vec<char>) -> (r: bool)
    ensures
        r == is_float_literal(s@),
{
    let start: usize = if s.len() > 0 && (s[0] == '+' || s[0] == '-') {
        1
    } else {
        0
    };
    let body = slice_chars(s, start, s.len());
    assert(body@ =~= unsigned_part(s@));
    let l = lower_chars(&body);
    let inf = ['i', 'n', 'f'];
    let infinity = ['i', 'n', 'f', 'i', 'n', 'i', 't', 'y'];
    let nan = ['n', 'a', 'n'];
    assert(inf@ =~= seq!['i', 'n', 'f']);
    assert(infinity@ =~= seq!['i', 'n', 'f', 'i', 'n', 'i', 't', 'y']);
    assert(nan@ =~= seq!['n', 'a', 'n']);
    if same_chars(&l, &inf) || same_chars(&l, &infinity) || same_chars(&l, &nan) {
        return true;
    }
    let b = &body;
    // The exponent marker.
    let mut p: usize = 0;
    assert(b@.skip(0) =~= b@);
    while p < b.len() && b[p] != 'e' && b[p] != 'E'
        invariant
            p <= b@.len(),
            exp_pos(b@) == p + exp_pos(b@.skip(p as int)),
        decreases b.len() - p,
    {
        assert(b@.skip(p as int).drop_first() =~= b@.skip(p + 1));
        p = p + 1;
    }
    if p < b.len() {
        assert(b@.skip(p as int)[0] == b@[p as int]);
    } else {
        assert(b@.skip(p as int).len() == 0);
    }
    assert(exp_pos(b@) == p);
    let m = slice_chars(b, 0, p);
    assert(m@ =~= b@.take(p as int));
    let d = find_char(&m, '.');
    proof {
        lemma_char_pos(m@, '.');
    }
    let mantissa_ok = if d >= m.len() {
        m.len() > 0 && digits_only(&m, 0, m.len())
    } else {
        digits_only(&m, 0, d) && digits_only(&m, d + 1, m.len()) && (d > 0 || m.len() > d + 1)
    };
    proof {
        assert(m@.subrange(0, m@.len() as int) =~= m@);
        assert(m@.subrange(0, d as int) =~= m@.take(d as int));
        if d < m@.len() {
            assert(m@.subrange(d + 1, m@.len() as int) =~= m@.skip(d + 1));
        }
    }
    if !mantissa_ok {
        return false;
    }
    if p >= b.len() {
        return true;
    }
    let e = slice_chars(b, p + 1, b.len());
    assert(e@ =~= b@.skip(p + 1));
    let es: usize = if e.len() > 0 && (e[0] == '+' || e[0] == '-') {
        1
    } else {
        0
    };
    assert(e@.subrange(es as int, e@.len() as int) =~= unsigned_part(e@));
    e.len() > es && digits_only(&e, es, e.len())
}

/// The number of bytes of `c` in UTF-8.
pub open spec fn utf8_width(c: char) -> nat {
    let u = c as u32;
    if u < 0x80 {
        1
    } else if u < 0x800 {
        2
    } else if u < 0x10000 {
        3
    } else {
        4
    }
}

/// The number of bytes of `s` in UTF-8.
pub open spec fn utf8_len(s: Seq<char>) -> nat
    decreases s.len(),
{
    if s.len() == 0 {
        0
    } else {
        utf8_len(s.drop_last()) + utf8_width(s.last())
    }
}

pub proof fn lemma_utf8_len_bounds(s: Seq<char>, i: int)
    requires
        0 <= i <= s.len(),
    ensures
        i <= utf8_len(s.take(i)) <= 4 * i,
        utf8_len(s.take(i)) <= utf8_len(s),
{
    lemma_utf8_prefix_range(s, i);
    lemma_utf8_prefix_mono(s, i);
}

proof fn lemma_utf8_prefix_range(s: Seq<char>, i: int)
    requires
        0 <= i <= s.len(),
    ensures
        i <= utf8_len(s.take(i)) <= 4 * i,
    decreases i,
{
    if i > 0 {
        lemma_utf8_prefix_range(s, i - 1);
        assert(s.take(i).drop_last() =~= s.take(i - 1));
    }
}

proof fn lemma_utf8_prefix_mono(s: Seq<char>, i: int)
    requires
        0 <= i <= s.len(),
    ensures
        utf8_len(s.take(i)) <= utf8_len(s),
    decreases s.len() - i,
{
    if i < s.len() {
        lemma_utf8_prefix_mono(s, i + 1);
        assert(s.take(i + 1).drop_last() =~= s.take(i));
    } else {
        assert(s.take(i) =~= s);
    }
}

/// The number of UTF-8 bytes of `s[..k]`.
pub fn utf8_prefix_len(s: &Vec<char>, k: usize) -> (r: usize)
    requires
        k <= s@.len(),
        4 * s@.len() <= usize::MAX,
    ensures
        r == utf8_len(s@.take(k as int)),
{
    let mut n: usize = 0;
    let mut i: usize = 0;
    while i < k
        invariant
            i <= k <= s@.len(),
            4 * s@.len() <= usize::MAX,
            n == utf8_len(s@.take(i as int)),
        decreases k - i,
    {
        proof {
            lemma_utf8_len_bounds(s@, i as int);
        }
        let u = s[i] as u32;
        let w: usize = if u < 0x80 {
            1
        } else if u < 0x800 {
            2
        } else if u < 0x10000 {
            3
        } else {
            4
        };
        assert(s@.take(i + 1).drop_last() =~= s@.take(i as int));
        n = n + w;
        i = i + 1;
    }
    n
}

/// The first `n` bytes of `s`, as characters, when byte `n` starts a
/// character (or ends `s`); `None` when it falls inside one.
pub open spec fn byte_prefix(s: Seq<char>, n: nat) -> Option<Seq<char>> {
    if exists|k: int| 0 <= k <= s.len() && #[trigger] utf8_len(s.take(k)) == n {
        Some(s.take(choose|k: int| 0 <= k <= s.len() && #[trigger] utf8_len(s.take(k)) == n))
    } else {
        None
    }
}

proof fn lemma_utf8_strict(s: Seq<char>, i: int, j: int)
    requires
        0 <= i < j <= s.len(),
    ensures
        utf8_len(s.take(i)) < utf8_len(s.take(j)),
    decreases j - i,
{
    assert(s.take(j).drop_last() =~= s.take(j - 1));
    if i < j - 1 {
        lemma_utf8_strict(s, i, j - 1);
    }
}

/// The first `n` bytes of `s` (see `byte_prefix`).
pub fn take_bytes(s: &Vec<char>, n: usize) -> (r: Option<Vec<char>>)
    requires
        4 * s@.len() <= usize::MAX,
    ensures
        match r {
            Some(v) => byte_prefix(s@, n as nat) == Some(v@),
            None => byte_prefix(s@, n as nat) is None,
        },
{
    let mut acc: usize = 0;
    let mut k: usize = 0;
    while k < s.len() && acc < n
        invariant
            k <= s@.len(),
            4 * s@.len() <= usize::MAX,
            acc == utf8_len(s@.take(k as int)),
            forall|j: int| 0 <= j < k ==> #[trigger] utf8_len(s@.take(j)) < n,
        decreases s.len() - k,
    {
        proof {
            lemma_utf8_len_bounds(s@, k as int);
        }
        let u = s[k] as u32;
        let w: usize = if u < 0x80 {
            1
        } else if u < 0x800 {
            2
        } else if u < 0x10000 {
            3
        } else {
            4
        };
        assert(s@.take(k + 1).drop_last() =~= s@.take(k as int));
        acc = acc + w;
        k = k + 1;
    }
    if acc == n {
        let v = slice_chars(s, 0, k);
        assert(v@ =~= s@.take(k as int));
        proof {
            let c = choose|c: int| 0 <= c <= s@.len() && #[trigger] utf8_len(s@.take(c)) == n;
            if c < k {
                lemma_utf8_strict(s@, c, k as int);
            } else if c > k {
                lemma_utf8_strict(s@, k as int, c);
            }
        }
        Some(v)
    } else {
        proof {
            assert forall|c: int| 0 <= c <= s@.len() implies #[trigger] utf8_len(s@.take(c)) != n by {
                if c < k {
                } else if c > k {
                    lemma_utf8_strict(s@, k as int, c);
                }
            }
        }
        None
    }
}

} // verus!
