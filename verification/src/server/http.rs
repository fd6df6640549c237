//! HTTP request routing for the REST API:
//!
//! | method | path                   | route        |
//! |--------|------------------------|--------------|
//! | POST   | /auth                  | `Auth`       |
//! | GET    | /dbs                   | `ListDbs`    |
//! | POST   | /dbs                   | `CreateDb`   |
//! | DELETE | /dbs/:name             | `DeleteDb`   |
//! | POST   | /dbs/:name/docs        | `InsertDoc`  |
//! | GET    | /dbs/:name/docs        | `QueryDocs`  |
//! | GET    | /dbs/:name/docs/:id    | `GetDoc`     |
//! | PUT    | /dbs/:name/docs/:id    | `UpdateDoc`  |
//! | DELETE | /dbs/:name/docs/:id    | `DeleteDoc`  |
//! | POST   | /dbs/:name/search      | `Search`     |
//! | POST   | /dbs/:name/compact     | `Compact`    |
//! | GET    | /dbs/:name/count       | `Count`      |
//! | GET    | /dbs/:name/dump        | `Dump`       |
//!
//! Anything else is `NotFound`.
use vstd::prelude::*;
use crate::text::{
    chars_eq, chars_of, char_pos, find_char, lemma_char_pos, lemma_split_nonempty, slice_chars,
    split_chars, split_on, str_eq, string_of,
};

verus! {

/// The value of a hexadecimal digit.
pub open spec fn hex_val(c: char) -> Option<u8> {
    let u = c as u32;
    if 48 <= u <= 57 {
        Some((u - 48) as u8)
    } else if 97 <= u <= 102 {
        Some((u - 87) as u8)
    } else if 65 <= u <= 70 {
        Some((u - 55) as u8)
    } else {
        None
    }
}

/// The byte that the two characters `a b` spell in hexadecimal, as
/// `u8::from_str_radix(.., 16)` reads them (a leading `+` is a sign).
pub open spec fn hex_byte(a: char, b: char) -> Option<u8> {
    if a == '+' {
        hex_val(b)
    } else {
        match (hex_val(a), hex_val(b)) {
            (Some(x), Some(y)) => Some((16 * x + y) as u8),
            _ => None,
        }
    }
}

/// `s` with `%XY` escapes replaced by the character whose code is the byte
/// `XY` and `+` replaced by a space.  A malformed escape is kept as it is.
pub open spec fn url_decoded(s: Seq<char>) -> Seq<char>
    decreases s.len(),
{
    if s.len() == 0 {
        s
    } else if s[0] == '%' {
        if s.len() >= 3 {
            match hex_byte(s[1], s[2]) {
                Some(b) => seq![b as char] + url_decoded(s.skip(3)),
                None => seq!['%', s[1], s[2]] + url_decoded(s.skip(3)),
            }
        } else {
            s
        }
    } else if s[0] == '+' {
        seq![' '] + url_decoded(s.drop_first())
    } else {
        seq![s[0]] + url_decoded(s.drop_first())
    }
}

fn hex_digit(c: char) -> (r: Option<u8>)
    ensures
        r == hex_val(c),
{
    let u = c as u32;
    if 48 <= u && u <= 57 {
        Some((u - 48) as u8)
    } else if 97 <= u && u <= 102 {
        Some((u - 87) as u8)
    } else if 65 <= u && u <= 70 {
        Some((u - 55) as u8)
    } else {
        None
    }
}

fn parse_hex_byte(a: char, b: char) -> (r: Option<u8>)
    ensures
        r == hex_byte(a, b),
{
    if a == '+' {
        return hex_digit(b);
    }
    match (hex_digit(a), hex_digit(b)) {
        (Some(x), Some(y)) => Some(16 * x + y),
        _ => None,
    }
}

/// Decodes a URL-encoded string (see `url_decoded`).
pub fn url_decode_chars(s: &Vec<char>) -> (r: Vec<char>)
    ensures
        r@ == url_decoded(s@),
{
    let mut out: Vec<char> = Vec::new();
    let mut i: usize = 0;
    assert(s@.skip(0) =~= s@);
    while i < s.len()
        invariant
            i <= s.len(),
            url_decoded(s@) == out@ + url_decoded(s@.skip(i as int)),
        decreases s.len() - i,
    {
        let ghost rest = s@.skip(i as int);
        let ghost before = out@;
        assert(rest[0] == s@[i as int]);
        let c = s[i];
        if c == '%' {
            if s.len() - i > 2 {
                assert(rest[1] == s@[i + 1] && rest[2] == s@[i + 2]);
                assert(rest.skip(3) =~= s@.skip(i + 3));
                match parse_hex_byte(s[i + 1], s[i + 2]) {
                    Some(b) => {
                        out.push(b as char);
                        assert(out@ =~= before + seq![b as char]);
                    },
                    None => {
                        out.push('%');
                        out.push(s[i + 1]);
                        out.push(s[i + 2]);
                        assert(out@ =~= before + seq!['%', s@[i + 1], s@[i + 2]]);
                    },
                }
                i = i + 3;
            } else {
                let ghost j = i;
                while i < s.len()
                    invariant
                        j <= i <= s.len(),
                        out@ == before + s@.subrange(j as int, i as int),
                    decreases s.len() - i,
                {
                    out.push(s[i]);
                    i = i + 1;
                    assert(out@ =~= before + s@.subrange(j as int, i as int));
                }
                assert(s@.subrange(j as int, i as int) =~= rest);
                assert(s@.skip(i as int).len() == 0);
            }
        } else if c == '+' {
            out.push(' ');
            assert(rest.drop_first() =~= s@.skip(i + 1));
            assert(out@ =~= before + seq![' ']);
            i = i + 1;
        } else {
            out.push(c);
            assert(rest.drop_first() =~= s@.skip(i + 1));
            assert(out@ =~= before + seq![c]);
            i = i + 1;
        }
        assert(url_decoded(s@) == out@ + url_decoded(s@.skip(i as int)));
    }
    assert(s@.skip(i as int).len() == 0);
    assert(out@ + url_decoded(s@.skip(i as int)) =~= out@);
    out
}

/// Decodes a URL-encoded string (see `url_decoded`).
pub fn url_decode(s: &str) -> (r: String)
    ensures
        r@ == url_decoded(s@),
{
    let cs = chars_of(s);
    let d = url_decode_chars(&cs);
    string_of(d.as_slice())
}

/// The value of the first `key=value` pair with key `key`, decoded; a pair
/// without `=` met before it ends the search with nothing.
pub open spec fn param_in(pairs: Seq<Seq<char>>, key: Seq<char>) -> Option<Seq<char>>
    decreases pairs.len(),
{
    if pairs.len() == 0 {
        None
    } else {
        let pr = pairs[0];
        let e = char_pos(pr, '=');
        if e >= pr.len() {
            None
        } else if pr.take(e) == key {
            Some(url_decoded(pr.skip(e + 1)))
        } else {
            param_in(pairs.drop_first(), key)
        }
    }
}

/// The query parameter `key` of a request path: the pairs after the first
/// `?`, separated by `&`, searched as `param_in` does.
pub open spec fn query_param(path: Seq<char>, key: Seq<char>) -> Option<Seq<char>> {
    let p = char_pos(path, '?');
    if p >= path.len() {
        None
    } else {
        param_in(split_on(path.skip(p + 1), '&'), key)
    }
}

/// The query parameter `key` of the request path `path` (see `query_param`).
pub fn extract_query_param(path: &str, key: &str) -> (r: Option<String>)
    ensures
        match r {
            Some(v) => query_param(path@, key@) == Some(v@),
            None => query_param(path@, key@) is None,
        },
{
    let cs = chars_of(path);
    let p = find_char(&cs, '?');
    proof {
        lemma_char_pos(cs@, '?');
    }
    if p >= cs.len() {
        return None;
    }
    let q = slice_chars(&cs, p + 1, cs.len());
    assert(q@ =~= cs@.skip(p + 1));
    let pairs = split_chars(&q, '&');
    let ghost ps = pairs@.map_values(|v: Vec<char>| v@);
    let kc = chars_of(key);
    let mut j: usize = 0;
    assert(ps.skip(0) =~= ps);
    while j < pairs.len()
        invariant
            j <= pairs.len(),
            ps == pairs@.map_values(|v: Vec<char>| v@),
            kc@ == key@,
            query_param(path@, key@) == param_in(ps.skip(j as int), key@),
        decreases pairs.len() - j,
    {
        let ghost rest = ps.skip(j as int);
        assert(rest[0] == pairs@[j as int]@);
        assert(rest.drop_first() =~= ps.skip(j + 1));
        let pair = &pairs[j];
        let e = find_char(pair, '=');
        proof {
            lemma_char_pos(pair@, '=');
        }
        if e >= pair.len() {
            return None;
        }
        let k = slice_chars(pair, 0, e);
        assert(k@ =~= pair@.take(e as int));
        if chars_eq(&k, &kc) {
            let v = slice_chars(pair, e + 1, pair.len());
            assert(v@ =~= pair@.skip(e + 1));
            let d = url_decode_chars(&v);
            return Some(string_of(d.as_slice()));
        }
        j = j + 1;
    }
    assert(ps.skip(j as int).len() == 0);
    None
}

/// Where a request goes.
#[derive(Debug)]
pub enum Route {
    /// Authentication check.
    Auth,
    /// List the databases.
    ListDbs,
    /// Create a database named in the body.
    CreateDb,
    /// Delete the database `db`.
    DeleteDb { db: String },
    /// Insert the document in the body into `db`.
    InsertDoc { db: String },
    /// Query `db` with the query parameter `q`, or list every document.
    QueryDocs { db: String, q: Option<String> },
    /// Read document `id` of `db`.
    GetDoc { db: String, id: String },
    /// Replace document `id` of `db` with the body.
    UpdateDoc { db: String, id: String },
    /// Delete document `id` of `db`.
    DeleteDoc { db: String, id: String },
    /// Full-text search of `db` for the term in the body.
    Search { db: String },
    /// Compact `db`.
    Compact { db: String },
    /// Count the documents of `db`.
    Count { db: String },
    /// Dump `db`.
    Dump { db: String },
    /// No such route.
    NotFound,
}

/// The plain value of a route.
pub enum RouteView {
    Auth,
    ListDbs,
    CreateDb,
    DeleteDb { db: Seq<char> },
    InsertDoc { db: Seq<char> },
    QueryDocs { db: Seq<char>, q: Option<Seq<char>> },
    GetDoc { db: Seq<char>, id: Seq<char> },
    UpdateDoc { db: Seq<char>, id: Seq<char> },
    DeleteDoc { db: Seq<char>, id: Seq<char> },
    Search { db: Seq<char> },
    Compact { db: Seq<char> },
    Count { db: Seq<char> },
    Dump { db: Seq<char> },
    NotFound,
}

impl View for Route {
    type V = RouteView;

    open spec fn view(&self) -> RouteView {
        match self {
            Route::Auth => RouteView::Auth,
            Route::ListDbs => RouteView::ListDbs,
            Route::CreateDb => RouteView::CreateDb,
            Route::DeleteDb { db } => RouteView::DeleteDb { db: db@ },
            Route::InsertDoc { db } => RouteView::InsertDoc { db: db@ },
            Route::QueryDocs { db, q } => RouteView::QueryDocs {
                db: db@,
                q: match q {
                    Some(s) => Some(s@),
                    None => None,
                },
            },
            Route::GetDoc { db, id } => RouteView::GetDoc { db: db@, id: id@ },
            Route::UpdateDoc { db, id } => RouteView::UpdateDoc { db: db@, id: id@ },
            Route::DeleteDoc { db, id } => RouteView::DeleteDoc { db: db@, id: id@ },
            Route::Search { db } => RouteView::Search { db: db@ },
            Route::Compact { db } => RouteView::Compact { db: db@ },
            Route::Count { db } => RouteView::Count { db: db@ },
            Route::Dump { db } => RouteView::Dump { db: db@ },
            Route::NotFound => RouteView::NotFound,
        }
    }
}

/// The route of a request with method `m` and path `p` (the table above).
/// Under `/dbs/`, the rest of the path is cut at every `/`; the first piece
/// names the database.
pub open spec fn route_of(m: Seq<char>, p: Seq<char>) -> RouteView {
    let dbs = "/dbs/"@;
    if p == "/auth"@ && m == "POST"@ {
        RouteView::Auth
    } else if p == "/dbs"@ && m == "GET"@ {
        RouteView::ListDbs
    } else if p == "/dbs"@ && m == "POST"@ {
        RouteView::CreateDb
    } else if p.len() >= dbs.len() && p.take(dbs.len() as int) == dbs {
        let segs = split_on(p.skip(dbs.len() as int), '/');
        let db = segs[0];
        if segs.len() == 1 && m == "DELETE"@ {
            RouteView::DeleteDb { db }
        } else if segs.len() == 2 && segs[1] == "docs"@ && m == "POST"@ {
            RouteView::InsertDoc { db }
        } else if segs.len() == 2 && segs[1] == "docs"@ && m == "GET"@ {
            RouteView::QueryDocs { db, q: query_param(p, "q"@) }
        } else if segs.len() == 3 && segs[1] == "docs"@ && m == "GET"@ {
            RouteView::GetDoc { db, id: segs[2] }
        } else if segs.len() == 3 && segs[1] == "docs"@ && m == "PUT"@ {
            RouteView::UpdateDoc { db, id: segs[2] }
        } else if segs.len() == 3 && segs[1] == "docs"@ && m == "DELETE"@ {
            RouteView::DeleteDoc { db, id: segs[2] }
        } else if segs.len() == 2 && segs[1] == "search"@ && m == "POST"@ {
            RouteView::Search { db }
        } else if segs.len() == 2 && segs[1] == "compact"@ && m == "POST"@ {
            RouteView::Compact { db }
        } else if segs.len() == 2 && segs[1] == "count"@ && m == "GET"@ {
            RouteView::Count { db }
        } else if segs.len() == 2 && segs[1] == "dump"@ && m == "GET"@ {
            RouteView::Dump { db }
        } else {
            RouteView::NotFound
        }
    } else {
        RouteView::NotFound
    }
}

fn is_word(v: &Vec<char>, w: &str) -> (r: bool)
    ensures
        r == (v@ == w@),
{
    let wc = chars_of(w);
    chars_eq(v, &wc)
}

/// Routes a request by method and path (see `route_of`).
pub fn route(method: &str, path: &str) -> (r: Route)
    ensures
        r@ == route_of(method@, path@),
{
    if str_eq(path, "/auth") && str_eq(method, "POST") {
        return Route::Auth;
    }
    if str_eq(path, "/dbs") && str_eq(method, "GET") {
        return Route::ListDbs;
    }
    if str_eq(path, "/dbs") && str_eq(method, "POST") {
        return Route::CreateDb;
    }
    let cs = chars_of(path);
    let prefix = chars_of("/dbs/");
    if cs.len() < prefix.len() {
        return Route::NotFound;
    }
    let head = slice_chars(&cs, 0, prefix.len());
    assert(head@ =~= cs@.take(prefix@.len() as int));
    if !chars_eq(&head, &prefix) {
        return Route::NotFound;
    }
    let rest = slice_chars(&cs, prefix.len(), cs.len());
    assert(rest@ =~= cs@.skip(prefix@.len() as int));
    let segs = split_chars(&rest, '/');
    let ghost sv = segs@.map_values(|v: Vec<char>| v@);
    proof {
        lemma_split_nonempty(rest@, '/');
    }
    assert(sv[0] == segs@[0]@);
    let db = string_of(segs[0].as_slice());
    let n = segs.len();
    if n == 1 && str_eq(method, "DELETE") {
        return Route::DeleteDb { db };
    }
    if n >= 2 {
        assert(sv[1] == segs@[1]@);
    }
    if n == 3 {
        assert(sv[2] == segs@[2]@);
    }
    let docs = n >= 2 && is_word(&segs[1], "docs");
    if n == 2 && docs && str_eq(method, "POST") {
        return Route::InsertDoc { db };
    }
    if n == 2 && docs && str_eq(method, "GET") {
        return Route::QueryDocs { db, q: extract_query_param(path, "q") };
    }
    if n == 3 && docs {
        let id = string_of(segs[2].as_slice());
        if str_eq(method, "GET") {
            return Route::GetDoc { db, id };
        }
        if str_eq(method, "PUT") {
            return Route::UpdateDoc { db, id };
        }
        if str_eq(method, "DELETE") {
            return Route::DeleteDoc { db, id };
        }
        return Route::NotFound;
    }
    if n == 2 && is_word(&segs[1], "search") && str_eq(method, "POST") {
        return Route::Search { db };
    }
    if n == 2 && is_word(&segs[1], "compact") && str_eq(method, "POST") {
        return Route::Compact { db };
    }
    if n == 2 && is_word(&segs[1], "count") && str_eq(method, "GET") {
        return Route::Count { db };
    }
    if n == 2 && is_word(&segs[1], "dump") && str_eq(method, "GET") {
        return Route::Dump { db };
    }
    Route::NotFound
}

} // verus!

verus! {

/// The position of the first white-space character of `s`, or its length.
pub open spec fn ws_pos(s: Seq<char>) -> int
    decreases s.len(),
{
    if s.len() == 0 {
        0
    } else if crate::text::is_ws(s[0]) {
        0
    } else {
        1 + ws_pos(s.drop_first())
    }
}

proof fn lemma_ws_pos(s: Seq<char>)
    ensures
        0 <= ws_pos(s) <= s.len(),
    decreases s.len(),
{
    if s.len() > 0 && !crate::text::is_ws(s[0]) {
        lemma_ws_pos(s.drop_first());
    }
}

/// The first white-space-separated word of `s` (empty when there is none)
/// and the text after it, as `str::split_whitespace` reads them.
pub open spec fn next_word(s: Seq<char>) -> (Seq<char>, Seq<char>) {
    let t = crate::text::trim_start(s);
    (t.take(ws_pos(t)), t.skip(ws_pos(t)))
}

fn trim_start_chars(s: &Vec<char>) -> (r: Vec<char>)
    ensures
        r@ == crate::text::trim_start(s@),
{
    let mut i: usize = 0;
    assert(s@.skip(0) =~= s@);
    while i < s.len() && crate::text::is_whitespace(s[i])
        invariant
            i <= s.len(),
            crate::text::trim_start(s@) == crate::text::trim_start(s@.skip(i as int)),
        decreases s.len() - i,
    {
        assert(s@.skip(i as int).drop_first() =~= s@.skip(i + 1));
        i = i + 1;
    }
    let r = slice_chars(s, i, s.len());
    assert(r@ =~= s@.skip(i as int));
    r
}

fn ws_pos_of(s: &Vec<char>) -> (r: usize)
    ensures
        r == ws_pos(s@),
{
    let mut i: usize = 0;
    assert(s@.skip(0) =~= s@);
    while i < s.len() && !crate::text::is_whitespace(s[i])
        invariant
            i <= s.len(),
            ws_pos(s@) == i + ws_pos(s@.skip(i as int)),
        decreases s.len() - i,
    {
        assert(s@.skip(i as int).drop_first() =~= s@.skip(i + 1));
        i = i + 1;
    }
    i
}

fn next_word_chars(s: &Vec<char>) -> (r: (Vec<char>, Vec<char>))
    ensures
        (r.0@, r.1@) == next_word(s@),
{
    let t = trim_start_chars(s);
    let p = ws_pos_of(&t);
    proof {
        lemma_ws_pos(t@);
    }
    let w = slice_chars(&t, 0, p);
    let rest = slice_chars(&t, p, t.len());
    assert(w@ =~= t@.take(p as int));
    assert(rest@ =~= t@.skip(p as int));
    (w, rest)
}

/// The lines of `raw` (see `text_lines`).
fn lines_chars(raw: &Vec<char>) -> (r: Vec<Vec<char>>)
    ensures
        r@.map_values(|v: Vec<char>| v@) == crate::feedback::text_lines(raw@),
{
    let pieces = split_chars(raw, '\n');
    let ghost pv = pieces@.map_values(|v: Vec<char>| v@);
    let mut n = pieces.len();
    if n > 0 && pieces[n - 1].len() == 0 {
        n = n - 1;
    }
    let ghost lines = crate::feedback::text_lines(raw@);
    assert(lines.len() == n);
    let mut out: Vec<Vec<char>> = Vec::new();
    let mut i: usize = 0;
    while i < n
        invariant
            i <= n,
            n <= pieces@.len(),
            pv == pieces@.map_values(|v: Vec<char>| v@),
            pv == split_on(raw@, '\n'),
            lines == crate::feedback::text_lines(raw@),
            lines.len() == n,
            forall|j: int| 0 <= j < n ==> #[trigger] lines[j] == crate::feedback::line_of(pv, j),
            out@.len() == i,
            forall|j: int| 0 <= j < i ==> (#[trigger] out@[j])@ == lines[j],
        decreases n - i,
    {
        let piece = &pieces[i];
        assert(pv[i as int] == piece@);
        let len = piece.len();
        let cut = if i + 1 < pieces.len() && len > 0 && piece[len - 1] == '\r' {
            len - 1
        } else {
            len
        };
        let line = slice_chars(piece, 0, cut);
        assert(line@ =~= lines[i as int]);
        out.push(line);
        i = i + 1;
    }
    assert(out@.map_values(|v: Vec<char>| v@) =~= lines);
    out
}

/// The header a line gives: the text before its first `:`, trimmed and
/// lowercased, and the text after it, trimmed; none without a `:`.
pub open spec fn header_of(line: Seq<char>) -> Option<(Seq<char>, Seq<char>)> {
    let p = char_pos(line, ':');
    if p < line.len() {
        Some((crate::index::lowercase(crate::text::trim(line.take(p))), crate::text::trim(line.skip(p + 1))))
    } else {
        None
    }
}

/// The headers of `lines`, read in order up to the first empty line and
/// added to `acc`; a later header replaces an earlier one of the same name.
pub open spec fn headers_from(acc: Seq<(Seq<char>, Seq<char>)>, lines: Seq<Seq<char>>) -> Seq<(Seq<char>, Seq<char>)>
    decreases lines.len(),
{
    if lines.len() == 0 || lines[0].len() == 0 {
        acc
    } else {
        headers_from(
            match header_of(lines[0]) {
                Some(h) => crate::assoc::assoc_insert(acc, h.0, h.1),
                None => acc,
            },
            lines.drop_first(),
        )
    }
}

/// The plain value of header pairs.
pub open spec fn pairs_view(h: Seq<(String, String)>) -> Seq<(Seq<char>, Seq<char>)> {
    h.map_values(|e: (String, String)| (e.0@, e.1@))
}

fn header_line(line: &Vec<char>) -> (r: Option<(String, String)>)
    ensures
        match r {
            Some(h) => header_of(line@) == Some((h.0@, h.1@)),
            None => header_of(line@) is None,
        },
{
    let p = find_char(line, ':');
    proof {
        lemma_char_pos(line@, ':');
    }
    if p < line.len() {
        let name = slice_chars(line, 0, p);
        let value = slice_chars(line, p + 1, line.len());
        assert(name@ =~= line@.take(p as int));
        assert(value@ =~= line@.skip(p + 1));
        let tn = crate::text::trim_chars(&name);
        let tv = crate::text::trim_chars(&value);
        let key = crate::index::to_lower(string_of(tn.as_slice()).as_str());
        Some((key, string_of(tv.as_slice())))
    } else {
        None
    }
}

fn put_header(h: &mut Vec<(String, String)>, key: String, value: String)
    ensures
        pairs_view(final(h)@) == crate::assoc::assoc_insert(pairs_view(old(h)@), key@, value@),
{
    let ghost s = pairs_view(h@);
    let mut i: usize = 0;
    while i < h.len()
        invariant
            i <= h@.len(),
            s == pairs_view(h@),
            h@ == old(h)@,
            forall|j: int| 0 <= j < i ==> (#[trigger] s[j]).0 != key@,
        decreases h.len() - i,
    {
        assert(s[i as int].0 == h@[i as int].0@);
        if str_eq(h[i].0.as_str(), key.as_str()) {
            proof {
                crate::assoc::lemma_insert_at(s, key@, value@, i as int);
            }
            let ghost kv = key@;
            let ghost vv = value@;
            let k = h[i].0.clone();
            h.set(i, (k, value));
            assert(pairs_view(h@) =~= s.update(i as int, (kv, vv)));
            return;
        }
        i = i + 1;
    }
    proof {
        crate::assoc::lemma_insert_absent(s, key@, value@);
    }
    let ghost kv = key@;
    let ghost vv = value@;
    h.push((key, value));
    assert(pairs_view(h@) =~= s.push((kv, vv)));
}

/// Whether `needle` occurs in `hay` at `i`.
pub open spec fn occurs_at(hay: Seq<u8>, needle: Seq<u8>, i: int) -> bool {
    0 <= i && i + needle.len() <= hay.len() && hay.subrange(i, i + needle.len()) == needle
}

/// The first position at or after `i` at which `needle` occurs in `hay`.
pub open spec fn find_from(hay: Seq<u8>, needle: Seq<u8>, i: int) -> Option<int>
    decreases hay.len() + 1 - i,
{
    if i < 0 || i + needle.len() > hay.len() {
        None
    } else if occurs_at(hay, needle, i) {
        Some(i)
    } else {
        find_from(hay, needle, i + 1)
    }
}

fn find_bytes(hay: &[u8], needle: &[u8]) -> (r: Option<usize>)
    ensures
        match r {
            Some(i) => find_from(hay@, needle@, 0) == Some(i as int),
            None => find_from(hay@, needle@, 0) is None,
        },
{
    let hl = hay.len();
    let nl = needle.len();
    if nl > hl {
        return None;
    }
    let last = hl - nl;
    let mut i: usize = 0;
    while i <= last
        invariant
            hl == hay@.len(),
            nl == needle@.len(),
            last == hl - nl,
            i <= last + 1,
            find_from(hay@, needle@, 0) == find_from(hay@, needle@, i as int),
        decreases last + 1 - i,
    {
        let mut k: usize = 0;
        let mut same = true;
        while k < nl && same
            invariant
                hl == hay@.len(),
                nl == needle@.len(),
                k <= nl,
                i <= last,
                last == hl - nl,
                same ==> forall|j: int| 0 <= j < k ==> hay@[i + j] == needle@[j],
                !same ==> hay@[i + k] != needle@[k as int] && k < nl,
            decreases nl - k + (if same { 1int } else { 0int }),
        {
            if hay[i + k] != needle[k] {
                same = false;
            } else {
                k = k + 1;
            }
        }
        if same {
            assert(hay@.subrange(i as int, i + nl) =~= needle@);
            return Some(i);
        }
        assert(!occurs_at(hay@, needle@, i as int)) by {
            if hay@.subrange(i as int, i + nl) == needle@ {
                assert(hay@.subrange(i as int, i + nl)[k as int] == hay@[i + k]);
            }
        }
        i = i + 1;
    }
    None
}

/// Where the body starts in the request text's bytes: at the first blank
/// line (`\r\n\r\n`, else `\n\n`), or at the end.
pub open spec fn body_start(text: Seq<u8>) -> int {
    match find_from(text, seq![13u8, 10u8, 13u8, 10u8], 0) {
        Some(i) => i,
        None => match find_from(text, seq![10u8, 10u8], 0) {
            Some(i) => i,
            None => text.len() as int,
        },
    }
}

/// A parsed HTTP request.
#[derive(Debug)]
pub struct HttpRequest {
    pub method: String,
    pub path: String,
    /// Header names (lowercased) and values, a name at most once.
    pub headers: Vec<(String, String)>,
    pub body: Vec<u8>,
}

/// The plain value of a request.
pub struct RequestView {
    pub method: Seq<char>,
    pub path: Seq<char>,
    pub headers: Seq<(Seq<char>, Seq<char>)>,
    pub body: Seq<u8>,
}

/// What reading a request from the bytes received gives.
pub enum RequestRead {
    /// Nothing to answer: no bytes, or a request line without a method and
    /// a path.
    Nothing,
    /// The text has no request line.
    NoRequestLine,
    /// A request.
    Request(RequestView),
    /// The body's start, found in the text read from the bytes, lies past
    /// the bytes themselves (bytes that are not UTF-8 can make the text
    /// longer).
    BodyPastEnd,
}

/// Reads a request: the bytes as text (invalid UTF-8 replaced); the method
/// and path are the first two words of the first line; the headers are the
/// following lines up to an empty one; the body is the bytes from the first
/// blank line of the text on.
pub open spec fn request_of(buf: Seq<u8>) -> RequestRead {
    if buf.len() == 0 {
        RequestRead::Nothing
    } else {
        let text = crate::wal::utf8_lossy(buf);
        let lines = crate::feedback::text_lines(text);
        if lines.len() == 0 {
            RequestRead::NoRequestLine
        } else {
            let method = next_word(lines[0]).0;
            let path = next_word(next_word(lines[0]).1).0;
            if method.len() == 0 || path.len() == 0 {
                RequestRead::Nothing
            } else {
                let b = body_start(vstd::utf8::encode_utf8(text));
                if b > buf.len() {
                    RequestRead::BodyPastEnd
                } else {
                    RequestRead::Request(RequestView {
                        method,
                        path,
                        headers: headers_from(Seq::empty(), lines.drop_first()),
                        body: buf.subrange(b, buf.len() as int),
                    })
                }
            }
        }
    }
}

/// Reads a request from the bytes received (see `request_of`): `Ok(None)`
/// for nothing to answer, an error without a request line, and `None` when
/// the body's start lies past the bytes.
pub fn parse_request(buf: &[u8]) -> (r: Option<Result<Option<HttpRequest>, crate::error::CassetteError>>)
    ensures
        match request_of(buf@) {
            RequestRead::Nothing => r == Some(Ok::<Option<HttpRequest>, crate::error::CassetteError>(None)),
            RequestRead::NoRequestLine => r matches Some(Err(crate::error::CassetteError::Io(m))) && m@
                == "missing request line"@,
            RequestRead::Request(v) => r matches Some(Ok(Some(q))) && q.method@ == v.method && q.path@ == v.path
                && pairs_view(q.headers@) == v.headers && q.body@ == v.body,
            RequestRead::BodyPastEnd => r is None,
        },
{
    if buf.len() == 0 {
        return Some(Ok(None));
    }
    let text = crate::wal::lossy_string(buf);
    let chars = chars_of(text.as_str());
    let lines = lines_chars(&chars);
    let ghost lv = lines@.map_values(|v: Vec<char>| v@);
    if lines.len() == 0 {
        return Some(Err(crate::error::CassetteError::Io("missing request line".to_string())));
    }
    assert(lv[0] == lines@[0]@);
    let (method, rest) = next_word_chars(&lines[0]);
    let (path, _) = next_word_chars(&rest);
    if method.len() == 0 || path.len() == 0 {
        return Some(Ok(None));
    }
    let mut headers: Vec<(String, String)> = Vec::new();
    let mut i: usize = 1;
    assert(pairs_view(headers@) =~= Seq::<(Seq<char>, Seq<char>)>::empty());
    assert(lv.skip(1) =~= lv.drop_first());
    while i < lines.len() && lines[i].len() > 0
        invariant
            1 <= i <= lines@.len(),
            lv == lines@.map_values(|v: Vec<char>| v@),
            headers_from(Seq::empty(), lv.drop_first()) == headers_from(pairs_view(headers@), lv.skip(i as int)),
        decreases lines.len() - i,
    {
        assert(lv.skip(i as int)[0] == lines@[i as int]@);
        assert(lv.skip(i as int).drop_first() =~= lv.skip(i + 1));
        match header_line(&lines[i]) {
            Some((k, v)) => {
                put_header(&mut headers, k, v);
            },
            None => {},
        }
        i = i + 1;
    }
    if i < lines.len() {
        assert(lv.skip(i as int)[0] == lines@[i as int]@);
    } else {
        assert(lv.skip(i as int).len() == 0);
    }
    let tb = text.as_str().as_bytes();
    let start = match find_bytes(tb, &[13u8, 10u8, 13u8, 10u8]) {
        Some(p) => p,
        None => match find_bytes(tb, &[10u8, 10u8]) {
            Some(p) => p,
            None => tb.len(),
        },
    };
    if start > buf.len() {
        return None;
    }
    let mut body: Vec<u8> = Vec::new();
    let mut k = start;
    while k < buf.len()
        invariant
            start <= k <= buf@.len(),
            body@ == buf@.subrange(start as int, k as int),
        decreases buf.len() - k,
    {
        body.push(buf[k]);
        k = k + 1;
        assert(body@ =~= buf@.subrange(start as int, k as int));
    }
    Some(Ok(Some(HttpRequest { method: string_of(method.as_slice()), path: string_of(path.as_slice()), headers, body })))
}

} // verus!
