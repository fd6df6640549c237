//! The query language, a small JSONPath-like DSL:
//!
//! - `*` or `$`: every document;
//! - `$.field op value` (or `field op value`, with `a.b` for nested fields),
//!   where `op` is `>=`, `<=`, `>`, `<` (numbers) or `==` (any value);
//! - `search("text")`: full-text search;
//! - `a and b`, `a or b`, split at the first `and` (else `or`) outside
//!   parentheses.
//!
//! Numbers are kept as the text that was written.  Evaluating a leaf (a
//! comparison or a search) on a document is the caller's part; `leaves`
//! lists them and `matches_with` combines their outcomes.
use vstd::prelude::*;
use crate::error::CassetteError;
use crate::literal::{
    i64_literal, is_float_literal, is_float_text, parse_i64, byte_prefix, take_bytes, utf8_len,
    utf8_prefix_len, lemma_utf8_len_bounds,
};
use crate::text::{
    chars_eq, chars_of, decimal, push_chars, push_decimal, push_str, slice_chars, split_chars, split_on,
    string_of, strip_char, strip_char_chars, trim, trim_chars,
};

verus! {

/// The value compared against in an `==` query.
#[derive(Debug, PartialEq)]
pub enum Literal {
    /// A string: quoted, or any text that is no other literal.
    Str(String),
    /// An integer that fits in an `i64`.
    Int(i64),
    /// A floating-point literal, as written.
    Float(String),
    /// `true` or `false`.
    Bool(bool),
    /// `null`.
    Null,
}

/// The plain value of a literal.
pub enum LiteralView {
    Str(Seq<char>),
    Int(i64),
    Float(Seq<char>),
    Bool(bool),
    Null,
}

impl View for Literal {
    type V = LiteralView;

    open spec fn view(&self) -> LiteralView {
        match self {
            Literal::Str(s) => LiteralView::Str(s@),
            Literal::Int(n) => LiteralView::Int(*n),
            Literal::Float(s) => LiteralView::Float(s@),
            Literal::Bool(b) => LiteralView::Bool(*b),
            Literal::Null => LiteralView::Null,
        }
    }
}

/// A parsed query.  The bounds of the ordering comparisons are
/// floating-point literals, as written.
#[derive(Debug, PartialEq)]
pub enum Query {
    All,
    Eq { path: Vec<String>, value: Literal },
    Gt { path: Vec<String>, value: String },
    Lt { path: Vec<String>, value: String },
    Gte { path: Vec<String>, value: String },
    Lte { path: Vec<String>, value: String },
    Search(String),
    And(Box<Query>, Box<Query>),
    Or(Box<Query>, Box<Query>),
}

/// The plain value of a query.
pub enum QueryView {
    All,
    Eq { path: Seq<Seq<char>>, value: LiteralView },
    Gt { path: Seq<Seq<char>>, value: Seq<char> },
    Lt { path: Seq<Seq<char>>, value: Seq<char> },
    Gte { path: Seq<Seq<char>>, value: Seq<char> },
    Lte { path: Seq<Seq<char>>, value: Seq<char> },
    Search(Seq<char>),
    And(Box<QueryView>, Box<QueryView>),
    Or(Box<QueryView>, Box<QueryView>),
}

/// The views of a field path.
pub open spec fn path_view(p: Seq<String>) -> Seq<Seq<char>> {
    p.map_values(|s: String| s@)
}

/// The plain value of a query.
pub open spec fn query_view(q: Query) -> QueryView
    decreases q,
{
    match q {
        Query::All => QueryView::All,
        Query::Eq { path, value } => QueryView::Eq { path: path_view(path@), value: value@ },
        Query::Gt { path, value } => QueryView::Gt { path: path_view(path@), value: value@ },
        Query::Lt { path, value } => QueryView::Lt { path: path_view(path@), value: value@ },
        Query::Gte { path, value } => QueryView::Gte { path: path_view(path@), value: value@ },
        Query::Lte { path, value } => QueryView::Lte { path: path_view(path@), value: value@ },
        Query::Search(t) => QueryView::Search(t@),
        Query::And(a, b) => QueryView::And(Box::new(query_view(*a)), Box::new(query_view(*b))),
        Query::Or(a, b) => QueryView::Or(Box::new(query_view(*a)), Box::new(query_view(*b))),
    }
}

impl View for Query {
    type V = QueryView;

    open spec fn view(&self) -> QueryView {
        query_view(*self)
    }
}

/// A parse error with its place.
#[derive(Debug)]
pub struct ParseError {
    pub message: String,
    pub position: Option<usize>,
    pub context: String,
}

/// How a parse error reads: the message, then ` at position N` when there
/// is a position, then ` near 'CONTEXT'` when the context is not empty.
pub open spec fn error_text(message: Seq<char>, position: Option<nat>, context: Seq<char>) -> Seq<char> {
    message + match position {
        Some(p) => " at position "@ + decimal(p),
        None => Seq::<char>::empty(),
    } + if context.len() > 0 {
        " near '"@ + context + "'"@
    } else {
        Seq::<char>::empty()
    }
}

impl ParseError {
    /// The error as text (see `error_text`).
    pub fn to_text(&self) -> (r: String)
        ensures
            r@ == error_text(
                self.message@,
                match self.position {
                    Some(p) => Some(p as nat),
                    None => None,
                },
                self.context@,
            ),
    {
        let mut out = chars_of(self.message.as_str());
        match self.position {
            Some(p) => {
                push_str(&mut out, " at position ");
                push_decimal(&mut out, p as u64);
            },
            None => {},
        }
        if !self.context.as_str().is_empty() {
            push_str(&mut out, " near '");
            push_str(&mut out, self.context.as_str());
            push_str(&mut out, "'");
        }
        string_of(out.as_slice())
    }
}

/// The first position `i` at parenthesis depth 0 (counting the character at
/// `i`) where `needle` starts, scanning from `i` at depth `depth`.
pub open spec fn balanced_from(h: Seq<char>, needle: Seq<char>, i: int, depth: int) -> Option<int>
    decreases h.len() - i,
{
    if i < 0 || i >= h.len() {
        None
    } else {
        let d = if h[i] == '(' {
            depth + 1
        } else if h[i] == ')' {
            depth - 1
        } else {
            depth
        };
        if d == 0 && i + needle.len() <= h.len() && h.subrange(i, i + needle.len()) == needle {
            Some(i)
        } else {
            balanced_from(h, needle, i + 1, d)
        }
    }
}

/// The first occurrence of `needle` outside parentheses.
pub open spec fn find_balanced(h: Seq<char>, needle: Seq<char>) -> Option<int> {
    balanced_from(h, needle, 0, 0)
}

pub proof fn lemma_balanced_bounds(h: Seq<char>, needle: Seq<char>, i: int, depth: int)
    ensures
        balanced_from(h, needle, i, depth) matches Some(k) ==> 0 <= i <= k && k + needle.len() <= h.len(),
    decreases h.len() - i,
{
    if 0 <= i < h.len() {
        let d = if h[i] == '(' {
            depth + 1
        } else if h[i] == ')' {
            depth - 1
        } else {
            depth
        };
        lemma_balanced_bounds(h, needle, i + 1, d);
    }
}

fn occurs_at(h: &Vec<char>, needle: &Vec<char>, i: usize) -> (r: bool)
    requires
        i + needle@.len() <= h@.len(),
    ensures
        r == (h@.subrange(i as int, i + needle@.len()) == needle@),
{
    let n = h.len();
    let mut j: usize = 0;
    while j < needle.len()
        invariant
            n == h@.len(),
            i + needle@.len() <= h@.len(),
            j <= needle@.len(),
            forall|k: int| 0 <= k < j ==> h@[i + k] == needle@[k],
        decreases needle.len() - j,
    {
        assert(i + j < h@.len());
        if h[i + j] != needle[j] {
            assert(h@.subrange(i as int, i + needle@.len())[j as int] != needle@[j as int]);
            return false;
        }
        j = j + 1;
    }
    assert(h@.subrange(i as int, i + needle@.len()) =~= needle@);
    true
}

/// The first occurrence of `needle` outside parentheses (see `find_balanced`).
pub fn find_balanced_at(h: &Vec<char>, needle: &Vec<char>) -> (r: Option<usize>)
    requires
        4 * h@.len() <= usize::MAX,
    ensures
        match r {
            Some(k) => find_balanced(h@, needle@) == Some(k as int),
            None => find_balanced(h@, needle@) is None,
        },
{
    let mut depth: i64 = 0;
    let mut i: usize = 0;
    while i < h.len()
        invariant
            i <= h@.len(),
            4 * h@.len() <= usize::MAX,
            -(i as int) <= depth <= i,
            find_balanced(h@, needle@) == balanced_from(h@, needle@, i as int, depth as int),
        decreases h.len() - i,
    {
        let c = h[i];
        let d = if c == '(' {
            depth + 1
        } else if c == ')' {
            depth - 1
        } else {
            depth
        };
        if d == 0 && needle.len() <= h.len() - i && occurs_at(h, needle, i) {
            return Some(i);
        }
        depth = d;
        i = i + 1;
    }
    None
}

/// The field path of a comparison: `$` and then `.` dropped from the
/// front (once each), the rest cut at every `.`; nothing left is an error.
pub open spec fn path_outcome(s: Seq<char>) -> Result<Seq<Seq<char>>, Seq<char>> {
    let t = trim(s);
    let a = if t.len() > 0 && t[0] == '$' { t.drop_first() } else { t };
    let b = if a.len() > 0 && a[0] == '.' { a.drop_first() } else { a };
    if b.len() == 0 {
        Err(error_text("Empty field path"@, Some(0), b))
    } else {
        Ok(split_on(b, '.'))
    }
}

/// The literal that `s` spells: a quoted string (either quote), an `i64`,
/// a floating-point literal, `true`, `false`, `null`, or else the text
/// itself.  `None` for a lone quote character, where slicing out the
/// quoted part panics.
pub open spec fn value_outcome(s: Seq<char>) -> Option<LiteralView> {
    let t = trim(s);
    if t.len() > 0 && ((t[0] == '"' && t.last() == '"') || (t[0] == '\'' && t.last() == '\'')) {
        if t.len() >= 2 {
            Some(LiteralView::Str(t.subrange(1, t.len() - 1)))
        } else {
            None
        }
    } else {
        match i64_literal(t) {
            Some(n) => Some(LiteralView::Int(n)),
            None => if is_float_literal(t) {
                Some(LiteralView::Float(t))
            } else if t == seq!['t', 'r', 'u', 'e'] {
                Some(LiteralView::Bool(true))
            } else if t == seq!['f', 'a', 'l', 's', 'e'] {
                Some(LiteralView::Bool(false))
            } else if t == seq!['n', 'u', 'l', 'l'] {
                Some(LiteralView::Null)
            } else {
                Some(LiteralView::Str(t))
            },
        }
    }
}

/// The kinds of comparison, in the order they are tried.
#[derive(Debug, Clone, Copy, PartialEq, Eq, Structural)]
pub enum OpKind {
    Gte,
    Lte,
    Gt,
    Lt,
    Eq,
}

/// The comparison operators with their kinds, in the order they are tried.
pub open spec fn comparison_ops() -> Seq<(Seq<char>, OpKind)> {
    seq![
        (seq!['>', '='], OpKind::Gte),
        (seq!['<', '='], OpKind::Lte),
        (seq!['>'], OpKind::Gt),
        (seq!['<'], OpKind::Lt),
        (seq!['=', '='], OpKind::Eq),
    ]
}

/// What parsing gives: a query, an error text, or a panic of the slicing.
pub enum ParseOutcome {
    Parsed(QueryView),
    Failed(Seq<char>),
    Panics,
}

/// An ordering comparison of `path` with the literal `value`.
pub open spec fn ordering(kind: OpKind, path: Seq<Seq<char>>, value: Seq<char>) -> QueryView {
    match kind {
        OpKind::Gte => QueryView::Gte { path, value },
        OpKind::Lte => QueryView::Lte { path, value },
        OpKind::Gt => QueryView::Gt { path, value },
        _ => QueryView::Lt { path, value },
    }
}

/// The comparison split at `k`, where `op` (of kind `kind`) occurs in `t`.
pub open spec fn comparison_outcome(t: Seq<char>, k: int, op: Seq<char>, kind: OpKind) -> ParseOutcome {
    let left = trim(t.take(k));
    let right = trim(t.skip(k + op.len()));
    let pos = utf8_len(t.take(k));
    if left.len() == 0 {
        ParseOutcome::Failed(
            error_text("Missing left-hand side of '"@ + op + "' comparison"@, Some(pos), t),
        )
    } else if right.len() == 0 {
        ParseOutcome::Failed(
            error_text("Missing right-hand side of '"@ + op + "' comparison"@, Some(pos + op.len()), t),
        )
    } else {
        match path_outcome(left) {
            Err(m) => ParseOutcome::Failed(m),
            Ok(path) => if kind == OpKind::Eq {
                match value_outcome(right) {
                    Some(v) => ParseOutcome::Parsed(QueryView::Eq { path, value: v }),
                    None => ParseOutcome::Panics,
                }
            } else if is_float_literal(right) {
                ParseOutcome::Parsed(ordering(kind, path, right))
            } else {
                ParseOutcome::Failed(
                    error_text(
                        "Expected numeric value for '"@ + op + "' comparison, got '"@ + right + "'"@,
                        Some(pos + op.len()),
                        right,
                    ),
                )
            },
        }
    }
}

/// The error for text that is no query; the context is cut to 40 bytes
/// and marked with `...` when longer (a panic when byte 40 falls inside a
/// character).
pub open spec fn unparsable(t: Seq<char>) -> ParseOutcome {
    let message = "Unable to parse query: '"@ + t + "'"@;
    if utf8_len(t) > 40 {
        match byte_prefix(t, 40) {
            Some(c) => ParseOutcome::Failed(error_text(message, Some(0), c + "..."@)),
            None => ParseOutcome::Panics,
        }
    } else {
        ParseOutcome::Failed(error_text(message, Some(0), t))
    }
}

/// The first of `ops` that occurs in `t` outside parentheses decides.
pub open spec fn comparisons_outcome(t: Seq<char>, ops: Seq<(Seq<char>, OpKind)>) -> ParseOutcome
    decreases ops.len(),
{
    if ops.len() == 0 {
        unparsable(t)
    } else {
        match find_balanced(t, ops[0].0) {
            Some(k) => comparison_outcome(t, k, ops[0].0, ops[0].1),
            None => comparisons_outcome(t, ops.drop_first()),
        }
    }
}

/// `search(...)`: the text between the parentheses, trimmed, without
/// surrounding double and then single quotes, must not be empty.
pub open spec fn search_outcome(t: Seq<char>) -> ParseOutcome {
    let inner = t.skip(7);
    if !(inner.len() > 0 && inner.last() == ')') {
        ParseOutcome::Failed(
            error_text(
                "Unclosed search(...) expression — missing closing ')'"@,
                Some((utf8_len(t) - 1) as nat),
                t,
            ),
        )
    } else {
        let term = strip_char(strip_char(trim(inner.drop_last()), '"'), '\'');
        if term.len() == 0 {
            let n: nat = if utf8_len(t) < 20 { utf8_len(t) } else { 20 };
            match byte_prefix(t, n) {
                Some(c) => ParseOutcome::Failed(error_text("Empty search term in search(...)"@, Some(7), c)),
                None => ParseOutcome::Panics,
            }
        } else {
            ParseOutcome::Parsed(QueryView::Search(term))
        }
    }
}

/// The parse of a query string.  After trimming: empty is an error; `*` and
/// `$` mean every document; `search(` starts a search; then the string is
/// split at the first ` and `, else ` or `, outside parentheses, both sides
/// parsed in turn; then the comparisons are tried.
pub open spec fn parse_outcome(s: Seq<char>) -> ParseOutcome
    decreases s.len(),
{
    let t = trim(s);
    if t.len() == 0 {
        ParseOutcome::Failed(error_text("Empty query string"@, Some(0), Seq::<char>::empty()))
    } else if t == seq!['*'] || t == seq!['$'] {
        ParseOutcome::Parsed(QueryView::All)
    } else if t.len() >= 7 && t.take(7) == "search("@ {
        search_outcome(t)
    } else {
        let is_and = find_balanced(t, " and "@) is Some;
        let kw = if is_and { " and "@ } else { " or "@ };
        let word = if is_and { "and"@ } else { "or"@ };
        match find_balanced(t, kw) {
            Some(k) => {
                proof {
                    crate::text::lemma_trim_len(s);
                    lemma_balanced_bounds(t, kw, 0, 0);
                }
                let left = t.take(k);
                let right = t.skip(k + kw.len());
                let pos = utf8_len(left);
                if trim(left).len() == 0 {
                    ParseOutcome::Failed(
                        error_text("Missing left-hand side of '"@ + word + "' expression"@, Some(pos), t),
                    )
                } else if trim(right).len() == 0 {
                    ParseOutcome::Failed(
                        error_text(
                            "Missing right-hand side of '"@ + word + "' expression"@,
                            Some(pos + kw.len()),
                            t,
                        ),
                    )
                } else {
                    match parse_outcome(left) {
                        ParseOutcome::Parsed(a) => match parse_outcome(right) {
                            ParseOutcome::Parsed(b) => ParseOutcome::Parsed(
                                if is_and {
                                    QueryView::And(Box::new(a), Box::new(b))
                                } else {
                                    QueryView::Or(Box::new(a), Box::new(b))
                                },
                            ),
                            other => other,
                        },
                        other => other,
                    }
                }
            },
            None => comparisons_outcome(t, comparison_ops()),
        }
    }
}

} // verus!

verus! {

/// Whether `r` is what the outcome `o` says parsing gives.
pub open spec fn matches_outcome(r: Result<Query, CassetteError>, o: ParseOutcome) -> bool {
    match o {
        ParseOutcome::Parsed(q) => r matches Ok(x) && x@ == q,
        ParseOutcome::Failed(m) => r matches Err(CassetteError::InvalidQuery(e)) && e@ == m,
        ParseOutcome::Panics => false,
    }
}

fn query_error(message: &Vec<char>, position: Option<usize>, context: &Vec<char>) -> (r: CassetteError)
    ensures
        r matches CassetteError::InvalidQuery(e) && e@ == error_text(
            message@,
            match position {
                Some(p) => Some(p as nat),
                None => None,
            },
            context@,
        ),
{
    let pe = ParseError {
        message: string_of(message.as_slice()),
        position,
        context: string_of(context.as_slice()),
    };
    CassetteError::InvalidQuery(pe.to_text())
}

fn to_strings(parts: &Vec<Vec<char>>) -> (r: Vec<String>)
    ensures
        path_view(r@) == parts@.map_values(|v: Vec<char>| v@),
{
    let mut out: Vec<String> = Vec::new();
    let mut i: usize = 0;
    while i < parts.len()
        invariant
            i <= parts.len(),
            path_view(out@) == parts@.map_values(|v: Vec<char>| v@).take(i as int),
        decreases parts.len() - i,
    {
        let s = string_of(parts[i].as_slice());
        let ghost before = out@;
        out.push(s);
        assert(path_view(out@) =~= path_view(before).push(s@));
        i = i + 1;
        assert(path_view(out@) =~= parts@.map_values(|v: Vec<char>| v@).take(i as int));
    }
    assert(parts@.map_values(|v: Vec<char>| v@).take(i as int) =~= parts@.map_values(|v: Vec<char>| v@));
    out
}

fn parse_path(s: &Vec<char>) -> (r: Result<Vec<String>, CassetteError>)
    ensures
        match path_outcome(s@) {
            Ok(p) => r matches Ok(v) && path_view(v@) == p,
            Err(m) => r matches Err(CassetteError::InvalidQuery(e)) && e@ == m,
        },
{
    let t = trim_chars(s);
    let mut start: usize = 0;
    if t.len() > 0 && t[0] == '$' {
        start = 1;
    }
    let ghost a = if t@.len() > 0 && t@[0] == '$' { t@.drop_first() } else { t@ };
    assert(a =~= t@.skip(start as int));
    if t.len() > start && t[start] == '.' {
        start = start + 1;
    }
    let b = slice_chars(&t, start, t.len());
    let ghost bb = if a.len() > 0 && a[0] == '.' { a.drop_first() } else { a };
    assert(bb =~= b@);
    if b.len() == 0 {
        let m = chars_of("Empty field path");
        return Err(query_error(&m, Some(0), &b));
    }
    let parts = split_chars(&b, '.');
    Ok(to_strings(&parts))
}

fn is_text(v: &Vec<char>, w: &[char]) -> (r: bool)
    ensures
        r == (v@ == w@),
{
    if v.len() != w.len() {
        return false;
    }
    let mut i: usize = 0;
    while i < v.len()
        invariant
            v.len() == w@.len(),
            i <= v.len(),
            forall|j: int| 0 <= j < i ==> v@[j] == w@[j],
        decreases v.len() - i,
    {
        if v[i] != w[i] {
            return false;
        }
        i = i + 1;
    }
    assert(v@ =~= w@);
    true
}

fn parse_value(s: &Vec<char>) -> (r: Option<Literal>)
    ensures
        match value_outcome(s@) {
            Some(l) => r matches Some(x) && x@ == l,
            None => r is None,
        },
{
    let t = trim_chars(s);
    let n = t.len();
    if n > 0 && ((t[0] == '"' && t[n - 1] == '"') || (t[0] == '\'' && t[n - 1] == '\'')) {
        if n >= 2 {
            let inner = slice_chars(&t, 1, n - 1);
            return Some(Literal::Str(string_of(inner.as_slice())));
        } else {
            return None;
        }
    }
    match parse_i64(&t) {
        Some(v) => {
            return Some(Literal::Int(v));
        },
        None => {},
    }
    if is_float_text(&t) {
        return Some(Literal::Float(string_of(t.as_slice())));
    }
    let tru = ['t', 'r', 'u', 'e'];
    let fals = ['f', 'a', 'l', 's', 'e'];
    let nul = ['n', 'u', 'l', 'l'];
    assert(tru@ =~= seq!['t', 'r', 'u', 'e']);
    assert(fals@ =~= seq!['f', 'a', 'l', 's', 'e']);
    assert(nul@ =~= seq!['n', 'u', 'l', 'l']);
    if is_text(&t, &tru) {
        Some(Literal::Bool(true))
    } else if is_text(&t, &fals) {
        Some(Literal::Bool(false))
    } else if is_text(&t, &nul) {
        Some(Literal::Null)
    } else {
        Some(Literal::Str(string_of(t.as_slice())))
    }
}

fn parse_comparison(t: &Vec<char>, k: usize, op: &Vec<char>, kind: OpKind) -> (r: Option<Result<Query, CassetteError>>)
    requires
        k + op@.len() <= t@.len(),
        4 * t@.len() <= usize::MAX,
    ensures
        match r {
            Some(x) => matches_outcome(x, comparison_outcome(t@, k as int, op@, kind)),
            None => comparison_outcome(t@, k as int, op@, kind) is Panics,
        },
{
    let lpart = slice_chars(t, 0, k);
    assert(lpart@ =~= t@.take(k as int));
    let left = trim_chars(&lpart);
    let rpart = slice_chars(t, k + op.len(), t.len());
    assert(rpart@ =~= t@.skip(k + op@.len()));
    let right = trim_chars(&rpart);
    let pos = utf8_prefix_len(t, k);
    proof {
        lemma_utf8_len_bounds(t@, k as int);
    }
    if left.len() == 0 {
        let mut m = chars_of("Missing left-hand side of '");
        push_chars(&mut m, op);
        push_str(&mut m, "' comparison");
        return Some(Err(query_error(&m, Some(pos), t)));
    }
    if right.len() == 0 {
        let mut m = chars_of("Missing right-hand side of '");
        push_chars(&mut m, op);
        push_str(&mut m, "' comparison");
        return Some(Err(query_error(&m, Some(pos + op.len()), t)));
    }
    let path = match parse_path(&left) {
        Ok(p) => p,
        Err(e) => {
            return Some(Err(e));
        },
    };
    if kind == OpKind::Eq {
        return match parse_value(&right) {
            Some(v) => Some(Ok(Query::Eq { path, value: v })),
            None => None,
        };
    }
    if !is_float_text(&right) {
        let mut m = chars_of("Expected numeric value for '");
        push_chars(&mut m, op);
        push_str(&mut m, "' comparison, got '");
        push_chars(&mut m, &right);
        push_str(&mut m, "'");
        return Some(Err(query_error(&m, Some(pos + op.len()), &right)));
    }
    let value = string_of(right.as_slice());
    let q = match kind {
        OpKind::Gte => Query::Gte { path, value },
        OpKind::Lte => Query::Lte { path, value },
        OpKind::Gt => Query::Gt { path, value },
        _ => Query::Lt { path, value },
    };
    Some(Ok(q))
}

fn unparsable_error(t: &Vec<char>) -> (r: Option<Result<Query, CassetteError>>)
    requires
        4 * t@.len() <= usize::MAX,
    ensures
        match r {
            Some(x) => matches_outcome(x, unparsable(t@)),
            None => unparsable(t@) is Panics,
        },
{
    let mut m = chars_of("Unable to parse query: '");
    push_chars(&mut m, t);
    push_str(&mut m, "'");
    let bytes = utf8_prefix_len(t, t.len());
    assert(t@.take(t@.len() as int) =~= t@);
    if bytes > 40 {
        match take_bytes(t, 40) {
            Some(c) => {
                let mut ctx = c;
                push_str(&mut ctx, "...");
                Some(Err(query_error(&m, Some(0), &ctx)))
            },
            None => None,
        }
    } else {
        Some(Err(query_error(&m, Some(0), t)))
    }
}

fn op_chars(a: &[char]) -> (r: Vec<char>)
    ensures
        r@ == a@,
{
    let mut out: Vec<char> = Vec::new();
    let mut i: usize = 0;
    while i < a.len()
        invariant
            i <= a@.len(),
            out@ == a@.take(i as int),
        decreases a.len() - i,
    {
        out.push(a[i]);
        i = i + 1;
        assert(out@ =~= a@.take(i as int));
    }
    assert(a@.take(i as int) =~= a@);
    out
}

fn parse_comparisons(t: &Vec<char>) -> (r: Option<Result<Query, CassetteError>>)
    requires
        4 * t@.len() <= usize::MAX,
    ensures
        match r {
            Some(x) => matches_outcome(x, comparisons_outcome(t@, comparison_ops())),
            None => comparisons_outcome(t@, comparison_ops()) is Panics,
        },
{
    let ge = ['>', '='];
    let le = ['<', '='];
    let gt = ['>'];
    let lt = ['<'];
    let eq = ['=', '='];
    assert(ge@ =~= seq!['>', '=']);
    assert(le@ =~= seq!['<', '=']);
    assert(gt@ =~= seq!['>']);
    assert(lt@ =~= seq!['<']);
    assert(eq@ =~= seq!['=', '=']);
    let mut ops: Vec<(Vec<char>, OpKind)> = Vec::new();
    ops.push((op_chars(&ge), OpKind::Gte));
    ops.push((op_chars(&le), OpKind::Lte));
    ops.push((op_chars(&gt), OpKind::Gt));
    ops.push((op_chars(&lt), OpKind::Lt));
    ops.push((op_chars(&eq), OpKind::Eq));
    let ghost ov = ops@.map_values(|e: (Vec<char>, OpKind)| (e.0@, e.1));
    assert(ov =~= comparison_ops());
    let mut i: usize = 0;
    assert(ov.skip(0) =~= ov);
    while i < ops.len()
        invariant
            i <= ops@.len(),
            ov == ops@.map_values(|e: (Vec<char>, OpKind)| (e.0@, e.1)),
            4 * t@.len() <= usize::MAX,
            comparisons_outcome(t@, comparison_ops()) == comparisons_outcome(t@, ov.skip(i as int)),
        decreases ops.len() - i,
    {
        let ghost rest = ov.skip(i as int);
        assert(rest[0] == (ops@[i as int].0@, ops@[i as int].1));
        assert(rest.drop_first() =~= ov.skip(i + 1));
        match find_balanced_at(t, &ops[i].0) {
            Some(k) => {
                proof {
                    lemma_balanced_bounds(t@, ops@[i as int].0@, 0, 0);
                }
                return parse_comparison(t, k, &ops[i].0, ops[i].1);
            },
            None => {},
        }
        i = i + 1;
    }
    assert(ov.skip(i as int).len() == 0);
    unparsable_error(t)
}

fn parse_search(t: &Vec<char>) -> (r: Option<Result<Query, CassetteError>>)
    requires
        t@.len() >= 7,
        4 * t@.len() <= usize::MAX,
    ensures
        match r {
            Some(x) => matches_outcome(x, search_outcome(t@)),
            None => search_outcome(t@) is Panics,
        },
{
    let inner = slice_chars(t, 7, t.len());
    assert(inner@ =~= t@.skip(7));
    let bytes = utf8_prefix_len(t, t.len());
    assert(t@.take(t@.len() as int) =~= t@);
    proof {
        lemma_utf8_len_bounds(t@, t@.len() as int);
    }
    if !(inner.len() > 0 && inner[inner.len() - 1] == ')') {
        let m = chars_of("Unclosed search(...) expression — missing closing ')'");
        return Some(Err(query_error(&m, Some(bytes - 1), t)));
    }
    let body = slice_chars(&inner, 0, inner.len() - 1);
    assert(body@ =~= inner@.drop_last());
    let trimmed = trim_chars(&body);
    let unquoted = strip_char_chars(&trimmed, '"');
    let term = strip_char_chars(&unquoted, '\'');
    if term.len() == 0 {
        let n: usize = if bytes < 20 {
            bytes
        } else {
            20
        };
        return match take_bytes(t, n) {
            Some(c) => {
                let m = chars_of("Empty search term in search(...)");
                Some(Err(query_error(&m, Some(7), &c)))
            },
            None => None,
        };
    }
    Some(Ok(Query::Search(string_of(term.as_slice()))))
}

} // verus!

verus! {

fn parse_chars(s: &Vec<char>) -> (r: Option<Result<Query, CassetteError>>)
    requires
        4 * s@.len() <= usize::MAX,
    ensures
        match r {
            Some(x) => matches_outcome(x, parse_outcome(s@)),
            None => parse_outcome(s@) is Panics,
        },
    decreases s@.len(),
{
    let t = trim_chars(s);
    proof {
        crate::text::lemma_trim_len(s@);
    }
    if t.len() == 0 {
        let m = chars_of("Empty query string");
        let e: Vec<char> = Vec::new();
        assert(e@ =~= Seq::<char>::empty());
        return Some(Err(query_error(&m, Some(0), &e)));
    }
    if t.len() == 1 && (t[0] == '*' || t[0] == '$') {
        assert(t@ =~= seq![t@[0]]);
        return Some(Ok(Query::All));
    }
    assert(!(t@ == seq!['*'] || t@ == seq!['$'])) by {
        if t@ == seq!['*'] || t@ == seq!['$'] {
            assert(t@.len() == 1);
        }
    }
    let sp = chars_of("search(");
    proof {
        reveal_strlit("search(");
    }
    if t.len() >= 7 {
        let head = slice_chars(&t, 0, 7);
        assert(head@ =~= t@.take(7));
        if chars_eq(&head, &sp) {
            return parse_search(&t);
        }
    }
    let and_kw = chars_of(" and ");
    let or_kw = chars_of(" or ");
    let is_and = find_balanced_at(&t, &and_kw).is_some();
    let kw = if is_and {
        and_kw
    } else {
        or_kw
    };
    match find_balanced_at(&t, &kw) {
        Some(k) => {
            proof {
                lemma_balanced_bounds(t@, kw@, 0, 0);
                lemma_utf8_len_bounds(t@, k as int);
                reveal_strlit(" and ");
                reveal_strlit(" or ");
            }
            let left = slice_chars(&t, 0, k);
            assert(left@ =~= t@.take(k as int));
            let right = slice_chars(&t, k + kw.len(), t.len());
            assert(right@ =~= t@.skip(k + kw@.len()));
            let pos = utf8_prefix_len(&t, k);
            let word = if is_and {
                "and"
            } else {
                "or"
            };
            if trim_chars(&left).len() == 0 {
                let mut m = chars_of("Missing left-hand side of '");
                push_str(&mut m, word);
                push_str(&mut m, "' expression");
                return Some(Err(query_error(&m, Some(pos), &t)));
            }
            if trim_chars(&right).len() == 0 {
                let mut m = chars_of("Missing right-hand side of '");
                push_str(&mut m, word);
                push_str(&mut m, "' expression");
                return Some(Err(query_error(&m, Some(pos + kw.len()), &t)));
            }
            let a = match parse_chars(&left) {
                Some(Ok(q)) => q,
                other => {
                    return other;
                },
            };
            let b = match parse_chars(&right) {
                Some(Ok(q)) => q,
                other => {
                    return other;
                },
            };
            if is_and {
                Some(Ok(Query::And(Box::new(a), Box::new(b))))
            } else {
                Some(Ok(Query::Or(Box::new(a), Box::new(b))))
            }
        },
        None => parse_comparisons(&t),
    }
}

impl Query {
    /// Parses a query string (see `parse_outcome`); `None` for the inputs
    /// on which cutting out an error's context would split a character.
    pub fn try_parse(input: &str) -> (r: Option<Result<Query, CassetteError>>)
        requires
            4 * input@.len() <= usize::MAX,
        ensures
            match r {
                Some(x) => matches_outcome(x, parse_outcome(input@)),
                None => parse_outcome(input@) is Panics,
            },
    {
        let cs = chars_of(input);
        parse_chars(&cs)
    }

    /// Parses a query string (see `parse_outcome`).
    pub fn parse(input: &str) -> (r: Result<Query, CassetteError>)
        requires
            4 * input@.len() <= usize::MAX,
            !(parse_outcome(input@) is Panics),
        ensures
            matches_outcome(r, parse_outcome(input@)),
    {
        match Self::try_parse(input) {
            Some(r) => r,
            None => Err(CassetteError::InvalidQuery(String::new())),
        }
    }
}

} // verus!

verus! {

/// Whether a query is a leaf: a comparison or a full-text search.
pub open spec fn is_leaf(q: QueryView) -> bool {
    !(q is All || q is And || q is Or)
}

/// The leaves of a query, left to right.
pub open spec fn leaves(q: QueryView) -> Seq<QueryView>
    decreases q,
{
    match q {
        QueryView::All => Seq::empty(),
        QueryView::And(a, b) => leaves(*a) + leaves(*b),
        QueryView::Or(a, b) => leaves(*a) + leaves(*b),
        _ => seq![q],
    }
}

/// Whether a document matches `q`, given whether it matches each leaf of
/// `q` (`hits`, in the order of `leaves(q)`): `*` matches every document,
/// `a and b` when both sides match, `a or b` when either side does.
pub open spec fn matches_with(q: QueryView, hits: Seq<bool>) -> bool
    decreases q,
{
    match q {
        QueryView::All => true,
        QueryView::And(a, b) => {
            let k = leaves(*a).len() as int;
            matches_with(*a, hits.take(k)) && matches_with(*b, hits.skip(k))
        },
        QueryView::Or(a, b) => {
            let k = leaves(*a).len() as int;
            matches_with(*a, hits.take(k)) || matches_with(*b, hits.skip(k))
        },
        _ => hits[0],
    }
}

/// The views of a sequence of borrowed queries.
pub open spec fn query_refs_view(s: Seq<&Query>) -> Seq<QueryView> {
    s.map_values(|q: &Query| query_view(*q))
}

/// Every leaf of a query is a leaf.
pub proof fn lemma_leaves_are_leaves(q: QueryView)
    ensures
        forall|i: int| 0 <= i < leaves(q).len() ==> is_leaf(#[trigger] leaves(q)[i]),
    decreases q,
{
    match q {
        QueryView::And(a, b) => {
            lemma_leaves_are_leaves(*a);
            lemma_leaves_are_leaves(*b);
            assert forall|i: int| 0 <= i < leaves(q).len() implies is_leaf(#[trigger] leaves(q)[i]) by {
                if i >= leaves(*a).len() {
                    assert(leaves(q)[i] == leaves(*b)[i - leaves(*a).len()]);
                }
            }
        },
        QueryView::Or(a, b) => {
            lemma_leaves_are_leaves(*a);
            lemma_leaves_are_leaves(*b);
            assert forall|i: int| 0 <= i < leaves(q).len() implies is_leaf(#[trigger] leaves(q)[i]) by {
                if i >= leaves(*a).len() {
                    assert(leaves(q)[i] == leaves(*b)[i - leaves(*a).len()]);
                }
            }
        },
        _ => {},
    }
}

impl Query {
    /// The leaves of the query (its comparisons and searches), left to
    /// right: what a caller evaluates on a document before `matches_with`.
    pub fn leaves(&self) -> (r: Vec<&Query>)
        ensures
            query_refs_view(r@) == leaves(self@),
            forall|i: int| 0 <= i < r@.len() ==> is_leaf(#[trigger] query_refs_view(r@)[i]),
        decreases self,
    {
        proof {
            lemma_leaves_are_leaves(self@);
        }
        match self {
            Query::And(a, b) => {
                let mut l = a.leaves();
                let mut r = b.leaves();
                let ghost (l0, r0) = (l@, r@);
                l.append(&mut r);
                assert(query_refs_view(l@) =~= query_refs_view(l0) + query_refs_view(r0));
                l
            },
            Query::Or(a, b) => {
                let mut l = a.leaves();
                let mut r = b.leaves();
                let ghost (l0, r0) = (l@, r@);
                l.append(&mut r);
                assert(query_refs_view(l@) =~= query_refs_view(l0) + query_refs_view(r0));
                l
            },
            Query::All => {
                let v: Vec<&Query> = Vec::new();
                assert(query_refs_view(v@) =~= Seq::<QueryView>::empty());
                v
            },
            _ => {
                let v: Vec<&Query> = vec![self];
                assert(query_refs_view(v@) =~= seq![self@]);
                v
            },
        }
    }

    /// Whether a document matches the query, given whether it matches each
    /// leaf (`hits`, in the order of `leaves`); see `matches_with`.
    pub fn matches_with(&self, hits: &[bool]) -> (r: bool)
        requires
            hits@.len() == leaves(self@).len(),
        ensures
            r == matches_with(self@, hits@),
    {
        let (r, end) = self.matches_from(hits, 0);
        assert(hits@.subrange(0, end as int) =~= hits@);
        r
    }

    /// `matches_with` on the hits from `start` on; also the position after
    /// the query's hits.
    fn matches_from(&self, hits: &[bool], start: usize) -> (r: (bool, usize))
        requires
            start + leaves(self@).len() <= hits@.len(),
        ensures
            r.1 == start + leaves(self@).len(),
            r.0 == matches_with(self@, hits@.subrange(start as int, r.1 as int)),
        decreases self,
    {
        match self {
            Query::All => (true, start),
            Query::And(a, b) => {
                let (x, m) = a.matches_from(hits, start);
                let (y, e) = b.matches_from(hits, m);
                proof {
                    let s = hits@.subrange(start as int, e as int);
                    let k = leaves(a@).len() as int;
                    assert(s.take(k) =~= hits@.subrange(start as int, m as int));
                    assert(s.skip(k) =~= hits@.subrange(m as int, e as int));
                }
                (x && y, e)
            },
            Query::Or(a, b) => {
                let (x, m) = a.matches_from(hits, start);
                let (y, e) = b.matches_from(hits, m);
                proof {
                    let s = hits@.subrange(start as int, e as int);
                    let k = leaves(a@).len() as int;
                    assert(s.take(k) =~= hits@.subrange(start as int, m as int));
                    assert(s.skip(k) =~= hits@.subrange(m as int, e as int));
                }
                (x || y, e)
            },
            _ => (hits[start], start + 1),
        }
    }
}

} // verus!

verus! {

/// Whether the trimmed query text `t` is a single comparison: not empty,
/// not `*` or `$`, not a `search(...)`, and without ` and ` or ` or `
/// outside parentheses.
pub open spec fn single_comparison(t: Seq<char>) -> bool {
    &&& t.len() > 0
    &&& t != seq!['*'] && t != seq!['$']
    &&& !(t.len() >= 7 && t.take(7) == "search("@)
    &&& find_balanced(t, " and "@) is None
    &&& find_balanced(t, " or "@) is None
}

/// A single comparison is parsed by trying the operators in turn.
proof fn lemma_single_comparison_outcome(s: Seq<char>)
    requires
        single_comparison(trim(s)),
    ensures
        parse_outcome(s) == comparisons_outcome(trim(s), comparison_ops()),
{
    reveal_with_fuel(comparisons_outcome, 6);
}

/// The operators after the first `n` of `comparison_ops`, and the first of them.
proof fn lemma_ops_tail()
    ensures
        comparison_ops()[0] == (seq!['>', '='], OpKind::Gte),
        comparison_ops().drop_first()[0] == (seq!['<', '='], OpKind::Lte),
        comparison_ops().drop_first().drop_first()[0] == (seq!['>'], OpKind::Gt),
        comparison_ops().drop_first().drop_first().drop_first()[0] == (seq!['<'], OpKind::Lt),
        comparison_ops().drop_first().drop_first().drop_first().drop_first()[0] == (seq!['=', '='], OpKind::Eq),
        comparison_ops().len() == 5,
        comparison_ops().drop_first().len() == 4,
        comparison_ops().drop_first().drop_first().len() == 3,
        comparison_ops().drop_first().drop_first().drop_first().len() == 2,
        comparison_ops().drop_first().drop_first().drop_first().drop_first().len() == 1,
{
}

/// An operator `op` of the query text `t` at `k` whose left side names a
/// field path and whose right side, trimmed, is `right`: the left side is
/// not blank, and its path has a field.
pub open spec fn split_at_operator(t: Seq<char>, k: int, op: Seq<char>, right: Seq<char>) -> bool {
    &&& find_balanced(t, op) == Some(k)
    &&& trim(t.take(k)).len() > 0
    &&& path_outcome(trim(t.take(k))) is Ok
    &&& trim(t.skip(k + op.len())) == right
    &&& right.len() > 0
}

/// `a >= n`, with a number `n`, parses to a `>=` comparison of the field
/// path of `a` with the text of `n`; so does `a <= n` to `<=`, `a > n` to
/// `>` and `a < n` to `<`, each operator being the first found of `>=`,
/// `<=`, `>`, `<` (in that order).
pub proof fn lemma_ordering_operator_kinds(s: Seq<char>, k: int, right: Seq<char>)
    requires
        single_comparison(trim(s)),
        is_float_literal(right),
    ensures
        ({
            let t = trim(s);
            let path = path_outcome(trim(t.take(k)))->Ok_0;
            &&& split_at_operator(t, k, seq!['>', '='], right) ==> parse_outcome(s) == ParseOutcome::Parsed(
                QueryView::Gte { path, value: right },
            )
            &&& find_balanced(t, seq!['>', '=']) is None && split_at_operator(t, k, seq!['<', '='], right)
                ==> parse_outcome(s) == ParseOutcome::Parsed(QueryView::Lte { path, value: right })
            &&& find_balanced(t, seq!['>', '=']) is None && find_balanced(t, seq!['<', '=']) is None
                && split_at_operator(t, k, seq!['>'], right) ==> parse_outcome(s) == ParseOutcome::Parsed(
                QueryView::Gt { path, value: right },
            )
            &&& find_balanced(t, seq!['>', '=']) is None && find_balanced(t, seq!['<', '=']) is None
                && find_balanced(t, seq!['>']) is None && split_at_operator(t, k, seq!['<'], right)
                ==> parse_outcome(s) == ParseOutcome::Parsed(QueryView::Lt { path, value: right })
        }),
{
    lemma_single_comparison_outcome(s);
    lemma_ops_tail();
    let ops = comparison_ops();
    let t = trim(s);
    assert(comparisons_outcome(t, ops) == match find_balanced(t, ops[0].0) {
        Some(j) => comparison_outcome(t, j, ops[0].0, ops[0].1),
        None => comparisons_outcome(t, ops.drop_first()),
    });
    let o1 = ops.drop_first();
    assert(comparisons_outcome(t, o1) == match find_balanced(t, o1[0].0) {
        Some(j) => comparison_outcome(t, j, o1[0].0, o1[0].1),
        None => comparisons_outcome(t, o1.drop_first()),
    });
    let o2 = o1.drop_first();
    assert(comparisons_outcome(t, o2) == match find_balanced(t, o2[0].0) {
        Some(j) => comparison_outcome(t, j, o2[0].0, o2[0].1),
        None => comparisons_outcome(t, o2.drop_first()),
    });
    let o3 = o2.drop_first();
    assert(comparisons_outcome(t, o3) == match find_balanced(t, o3[0].0) {
        Some(j) => comparison_outcome(t, j, o3[0].0, o3[0].1),
        None => comparisons_outcome(t, o3.drop_first()),
    });
}

/// `a == 'x'` and `a == "x"` parse to an equality of the field path of `a`
/// with the string `x`, the text between the quotes, whatever it holds;
/// `==` being the only comparison operator found.
pub proof fn lemma_quoted_value_is_its_text(s: Seq<char>, k: int, q: char, x: Seq<char>)
    requires
        single_comparison(trim(s)),
        q == '\'' || q == '"',
        find_balanced(trim(s), seq!['>', '=']) is None,
        find_balanced(trim(s), seq!['<', '=']) is None,
        find_balanced(trim(s), seq!['>']) is None,
        find_balanced(trim(s), seq!['<']) is None,
        split_at_operator(trim(s), k, seq!['=', '='], seq![q] + x + seq![q]),
    ensures
        parse_outcome(s) == ParseOutcome::Parsed(
            QueryView::Eq {
                path: path_outcome(trim(trim(s).take(k)))->Ok_0,
                value: LiteralView::Str(x),
            },
        ),
{
    lemma_single_comparison_outcome(s);
    lemma_ops_tail();
    let ops = comparison_ops();
    let t = trim(s);
    let o1 = ops.drop_first();
    let o2 = o1.drop_first();
    let o3 = o2.drop_first();
    let o4 = o3.drop_first();
    assert(comparisons_outcome(t, ops) == comparisons_outcome(t, o1));
    assert(comparisons_outcome(t, o1) == comparisons_outcome(t, o2));
    assert(comparisons_outcome(t, o2) == comparisons_outcome(t, o3));
    assert(comparisons_outcome(t, o3) == comparisons_outcome(t, o4));
    assert(comparisons_outcome(t, o4) == comparison_outcome(t, k, seq!['=', '='], OpKind::Eq));
    let v = seq![q] + x + seq![q];
    assert(v[0] == q && v.last() == q);
    assert(crate::text::trim_start(v) == v);
    assert(crate::text::trim_end(v) == v);
    assert(trim(v) == v);
    assert(v.subrange(1, v.len() - 1) =~= x);
}

} // verus!
