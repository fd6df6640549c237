//! A syntactic check of JSONPath expressions for the array indexes that the
//! JSONPath evaluator cannot take.
//!
//! jsonpath_rust evaluates a union of indexes (`[1,2]`) only when every
//! index is a non-negative integer that fits in `i64`, a single index
//! (`[3]`) only when it fits in `i64`, and a slice (`[a:b:s]`) only when
//! its step is not zero; on any other such index it panics.  The check
//! looks at the run of index characters (digits, signs, `.`, `e`, `E`,
//! `,`, `:` and whitespace) that follows each `[` outside quoted strings,
//! and refuses the run when
//! - it holds a `,` and also a sign, `.`, an exponent, a `:` or a digit
//!   run above `i64::MAX` (a union with an index that is not a non-negative
//!   `i64`),
//! - it holds no `,` but two `:`, and the text after the last `:` is `0`
//!   (a zero step),
//! - it holds neither `,` nor `:` but a digit run above `i64::MAX` (an
//!   index beyond `i64`).
//! A digit run is above `i64::MAX` when it has more than 19 digits, or 19
//! digits that read above `9223372036854775807`.
//! Every expression on which the evaluator panics for these reasons is
//! refused: outside a quoted string no `'` or `"` can stand in an
//! expression that parses, so the runs the check skips are text.  The check
//! is coarser than the grammar in three places: it refuses `-0` in a union
//! (which reads as `0`), a union of negative numbers written as a value in a
//! filter (such as `@.a in [1,-2]`, which is not evaluated as an index), and
//! a zero step on a value that is not an array (which selects nothing).
use vstd::prelude::*;
use crate::text::chars_of;

verus! {

/// What the text after the last `:` of a run holds, whitespace aside.
#[derive(Debug, Clone, Copy, PartialEq, Eq, Structural)]
pub enum StepText {
    /// Nothing.
    Empty,
    /// A single `0`.
    Zero,
    /// Anything else.
    Other,
}

/// Where the scan stands with respect to quoted strings.
#[derive(Debug, Clone, Copy, PartialEq, Eq, Structural)]
pub enum Quote {
    /// Outside any quoted string.
    Out,
    /// Inside a `'...'` string.
    Single,
    /// Inside a `"..."` string.
    Double,
    /// Inside a `'...'` string, right after a `\`.
    SingleEscape,
    /// Inside a `"..."` string, right after a `\`.
    DoubleEscape,
}

/// How a digit run compares with the digits of `i64::MAX` read so far.
#[derive(Debug, Clone, Copy, PartialEq, Eq, Structural)]
pub enum Against {
    /// Below at the first digit that differs.
    Below,
    /// Equal so far.
    Same,
    /// Above at the first digit that differs.
    Above,
}

/// The state of a left-to-right scan of a JSONPath expression.
#[derive(Debug, Clone, Copy)]
pub struct IndexScan {
    /// Where the scan stands with respect to quoted strings.
    pub quote: Quote,
    /// Inside a run of index characters that began right after a `[`.
    pub in_run: bool,
    /// The run holds a `,`.
    pub comma: bool,
    /// The run holds a sign, `.`, `e`, `E` or `:`.
    pub odd: bool,
    /// The number of `:` in the run, counted up to 2.
    pub colons: u8,
    /// The length of the digit run at the end of the run, counted up to 20.
    pub digits: u8,
    /// How that digit run compares with the digits of `i64::MAX`.
    pub against: Against,
    /// The run held a digit run above `i64::MAX` that has ended, or one
    /// of 20 digits.
    pub long: bool,
    /// The text after the last `:` of the run.
    pub step: StepText,
    /// A finished run was refused.
    pub bad: bool,
}

/// Whether `c` is an ASCII digit.
pub open spec fn is_digit(c: char) -> bool {
    '0' <= c <= '9'
}

/// Whether `c` is whitespace in the JSONPath grammar.
pub open spec fn is_space(c: char) -> bool {
    c == ' ' || c == '\t' || c == '\r' || c == '\n'
}

/// Whether `c` is a sign, a decimal point, an exponent mark or a `:`.
pub open spec fn is_odd(c: char) -> bool {
    c == '-' || c == '+' || c == '.' || c == 'e' || c == 'E' || c == ':'
}

/// Whether `c` may occur in the numeric content of an index.
pub open spec fn is_index_char(c: char) -> bool {
    is_digit(c) || is_space(c) || is_odd(c) || c == ','
}

/// The `i`-th digit of `i64::MAX`, `9223372036854775807`.
pub open spec fn max_digit(i: u8) -> char {
    "9223372036854775807"@[i as int]
}

/// How the digit `c` compares with the digit `m`.
pub open spec fn digit_against(c: char, m: char) -> Against {
    if c < m {
        Against::Below
    } else if c == m {
        Against::Same
    } else {
        Against::Above
    }
}

/// Whether the digit run described by `s` reads above `i64::MAX`.
pub open spec fn run_too_big(s: IndexScan) -> bool {
    s.long || (s.digits == 19 && s.against == Against::Above)
}

/// The quote state after `c`, outside a run.
pub open spec fn quote_step(q: Quote, c: char) -> Quote {
    match q {
        Quote::Out => if c == '\'' {
            Quote::Single
        } else if c == '"' {
            Quote::Double
        } else {
            Quote::Out
        },
        Quote::Single => if c == '\\' {
            Quote::SingleEscape
        } else if c == '\'' {
            Quote::Out
        } else {
            Quote::Single
        },
        Quote::Double => if c == '\\' {
            Quote::DoubleEscape
        } else if c == '"' {
            Quote::Out
        } else {
            Quote::Double
        },
        Quote::SingleEscape => Quote::Single,
        Quote::DoubleEscape => Quote::Double,
    }
}

/// The state before any character of a run (or outside runs).
pub open spec fn scan_start(quote: Quote, bad: bool, in_run: bool) -> IndexScan {
    IndexScan {
        quote,
        in_run,
        comma: false,
        odd: false,
        colons: 0,
        digits: 0,
        against: Against::Same,
        long: false,
        step: StepText::Empty,
        bad,
    }
}

/// Whether the run described by `s` is refused (see the module's text).
pub open spec fn run_refused(s: IndexScan) -> bool {
    if s.comma {
        s.odd || run_too_big(s)
    } else if s.colons > 0 {
        s.colons >= 2 && s.step == StepText::Zero
    } else {
        run_too_big(s)
    }
}

/// The run described by `s`, one index character `c` longer.
pub open spec fn run_extended(s: IndexScan, c: char) -> IndexScan {
    IndexScan {
        quote: s.quote,
        in_run: true,
        comma: s.comma || c == ',',
        odd: s.odd || is_odd(c),
        colons: if c == ':' && s.colons < 2 { (s.colons + 1) as u8 } else { s.colons },
        digits: if is_digit(c) { if s.digits < 20 { (s.digits + 1) as u8 } else { 20 } } else { 0 },
        against: if !is_digit(c) {
            Against::Same
        } else if s.digits == 0 || (s.digits < 19 && s.against == Against::Same) {
            digit_against(c, max_digit(s.digits))
        } else {
            s.against
        },
        long: if is_digit(c) { s.long || s.digits >= 19 } else { run_too_big(s) },
        step: if c == ':' {
            StepText::Empty
        } else if is_space(c) {
            s.step
        } else if c == '0' && s.step == StepText::Empty {
            StepText::Zero
        } else {
            StepText::Other
        },
        bad: s.bad,
    }
}

/// The state after one more character `c`.
pub open spec fn scan_step(s: IndexScan, c: char) -> IndexScan {
    if s.in_run && is_index_char(c) {
        run_extended(s, c)
    } else {
        scan_start(
            quote_step(s.quote, c),
            s.bad || (s.in_run && run_refused(s)),
            s.quote == Quote::Out && c == '[',
        )
    }
}

/// The state after the characters `p`.
pub open spec fn scan(p: Seq<char>) -> IndexScan
    decreases p.len(),
{
    if p.len() == 0 {
        scan_start(Quote::Out, false, false)
    } else {
        scan_step(scan(p.drop_last()), p.last())
    }
}

/// Whether no run of index characters after a `[` of `p` is refused.
pub open spec fn jsonpath_index_safe(p: Seq<char>) -> bool {
    let s = scan(p);
    !s.bad && !(s.in_run && run_refused(s))
}

/// `max_digit`, computed.
fn i64_max_digit(i: u8) -> (r: char)
    requires
        i < 19,
    ensures
        r == max_digit(i),
{
    proof {
        reveal_strlit("9223372036854775807");
    }
    let ds = "9223372036854775807";
    let cs = chars_of(ds);
    cs[i as usize]
}

/// `digit_against`, computed.
fn against_of(c: char, m: char) -> (r: Against)
    ensures
        r == digit_against(c, m),
{
    if c < m {
        Against::Below
    } else if c == m {
        Against::Same
    } else {
        Against::Above
    }
}

/// `quote_step`, computed.
fn next_quote(q: Quote, c: char) -> (r: Quote)
    ensures
        r == quote_step(q, c),
{
    match q {
        Quote::Out => if c == '\'' {
            Quote::Single
        } else if c == '"' {
            Quote::Double
        } else {
            Quote::Out
        },
        Quote::Single => if c == '\\' {
            Quote::SingleEscape
        } else if c == '\'' {
            Quote::Out
        } else {
            Quote::Single
        },
        Quote::Double => if c == '\\' {
            Quote::DoubleEscape
        } else if c == '"' {
            Quote::Out
        } else {
            Quote::Double
        },
        Quote::SingleEscape => Quote::Single,
        Quote::DoubleEscape => Quote::Double,
    }
}

/// `run_refused`, computed.
fn refused(s: &IndexScan) -> (r: bool)
    ensures
        r == run_refused(*s),
{
    let too_big = s.long || (s.digits == 19 && s.against == Against::Above);
    if s.comma {
        s.odd || too_big
    } else if s.colons > 0 {
        s.colons >= 2 && s.step == StepText::Zero
    } else {
        too_big
    }
}

/// `scan_step`, computed.
fn scan_char(s: IndexScan, c: char) -> (r: IndexScan)
    ensures
        r == scan_step(s, c),
{
    let digit = '0' <= c && c <= '9';
    let space = c == ' ' || c == '\t' || c == '\r' || c == '\n';
    let odd = c == '-' || c == '+' || c == '.' || c == 'e' || c == 'E' || c == ':';
    if s.in_run && (digit || space || odd || c == ',') {
        let colons = if c == ':' && s.colons < 2 {
            s.colons + 1
        } else {
            s.colons
        };
        let digits = if digit {
            if s.digits < 20 {
                s.digits + 1
            } else {
                20
            }
        } else {
            0
        };
        let against = if !digit {
            Against::Same
        } else if s.digits == 0 || (s.digits < 19 && s.against == Against::Same) {
            against_of(c, i64_max_digit(s.digits))
        } else {
            s.against
        };
        let long = if digit {
            s.long || s.digits >= 19
        } else {
            s.long || (s.digits == 19 && s.against == Against::Above)
        };
        let step = if c == ':' {
            StepText::Empty
        } else if space {
            s.step
        } else if c == '0' && s.step == StepText::Empty {
            StepText::Zero
        } else {
            StepText::Other
        };
        IndexScan {
            quote: s.quote,
            in_run: true,
            comma: s.comma || c == ',',
            odd: s.odd || odd,
            colons,
            digits,
            against,
            long,
            step,
            bad: s.bad,
        }
    } else {
        let r = refused(&s);
        IndexScan {
            quote: next_quote(s.quote, c),
            in_run: s.quote == Quote::Out && c == '[',
            comma: false,
            odd: false,
            colons: 0,
            digits: 0,
            against: Against::Same,
            long: false,
            step: StepText::Empty,
            bad: s.bad || (s.in_run && r),
        }
    }
}

/// Whether the JSONPath expression `path` passes the index check (see the
/// module's text); an expression that fails it is not evaluated.
pub fn index_safe(path: &str) -> (b: bool)
    ensures
        b == jsonpath_index_safe(path@),
{
    let cs = chars_of(path);
    let mut s = IndexScan {
        quote: Quote::Out,
        in_run: false,
        comma: false,
        odd: false,
        colons: 0,
        digits: 0,
        against: Against::Same,
        long: false,
        step: StepText::Empty,
        bad: false,
    };
    let mut i: usize = 0;
    while i < cs.len()
        invariant
            i <= cs@.len(),
            s == scan(cs@.take(i as int)),
        decreases cs.len() - i,
    {
        assert(cs@.take(i + 1).drop_last() =~= cs@.take(i as int));
        s = scan_char(s, cs[i]);
        i = i + 1;
    }
    assert(cs@.take(cs@.len() as int) =~= cs@);
    let r = refused(&s);
    !s.bad && !(s.in_run && r)
}

} // verus!
