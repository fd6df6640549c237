//! The interactive shell's commands: how a line reads, and word
//! completion.  Reading lines, running the commands and printing are the
//! caller's part.
use vstd::prelude::*;
use vstd::string::StringSliceAdditionalSpecFns;
use crate::index::{lowercase, to_lower};
use crate::text::{char_pos, chars_of, find_char, slice_chars, str_eq, string_of, trim, trim_chars, views};

verus! {

/// The line split at its first space: the part before it and the part
/// after it, when there is a space.
pub open spec fn space_split(s: Seq<char>) -> Option<(Seq<char>, Seq<char>)> {
    let p = char_pos(s, ' ');
    if p < s.len() {
        Some((s.take(p), s.skip(p + 1)))
    } else {
        None
    }
}

/// A collection name and the rest of the arguments, both trimmed; nothing
/// when the name is empty.
pub open spec fn coll_rest(s: Seq<char>) -> Option<(Seq<char>, Seq<char>)> {
    match space_split(s) {
        Some((a, b)) => if trim(a).len() == 0 {
            None
        } else {
            Some((trim(a), trim(b)))
        },
        None => if trim(s).len() == 0 {
            None
        } else {
            Some((trim(s), Seq::empty()))
        },
    }
}

/// Three arguments, split at the first two spaces and trimmed; nothing
/// when there are fewer than two spaces or one of them is empty.
pub open spec fn three_args(s: Seq<char>) -> Option<(Seq<char>, Seq<char>, Seq<char>)> {
    match space_split(s) {
        None => None,
        Some((a, b)) => match space_split(b) {
            None => None,
            Some((c, d)) => if trim(a).len() == 0 || trim(c).len() == 0 || trim(d).len() == 0 {
                None
            } else {
                Some((trim(a), trim(c), trim(d)))
            },
        },
    }
}

/// Splits `s` at its first space (see `space_split`).
fn split_space(s: &Vec<char>) -> (r: Option<(Vec<char>, Vec<char>)>)
    ensures
        match r {
            Some((a, b)) => space_split(s@) == Some((a@, b@)),
            None => space_split(s@) is None,
        },
{
    let p = find_char(s, ' ');
    proof {
        crate::text::lemma_char_pos(s@, ' ');
    }
    if p < s.len() {
        let a = slice_chars(s, 0, p);
        let b = slice_chars(s, p + 1, s.len());
        assert(a@ =~= s@.take(p as int));
        assert(b@ =~= s@.skip(p + 1));
        Some((a, b))
    } else {
        None
    }
}

/// A collection name and the rest (see `coll_rest`).
pub fn split_collection_rest(s: &str) -> (r: Option<(String, String)>)
    ensures
        match r {
            Some((a, b)) => coll_rest(s@) == Some((a@, b@)),
            None => coll_rest(s@) is None,
        },
{
    let v = chars_of(s);
    match split_space(&v) {
        Some((a, b)) => {
            let ta = trim_chars(&a);
            if ta.len() == 0 {
                return None;
            }
            let tb = trim_chars(&b);
            Some((string_of(ta.as_slice()), string_of(tb.as_slice())))
        },
        None => {
            let t = trim_chars(&v);
            if t.len() == 0 {
                return None;
            }
            let e: Vec<char> = Vec::new();
            assert(e@ =~= Seq::<char>::empty());
            Some((string_of(t.as_slice()), string_of(e.as_slice())))
        },
    }
}

/// Three arguments (see `three_args`).
pub fn split_three(s: &str) -> (r: Option<(String, String, String)>)
    ensures
        match r {
            Some((a, b, c)) => three_args(s@) == Some((a@, b@, c@)),
            None => three_args(s@) is None,
        },
{
    let v = chars_of(s);
    match split_space(&v) {
        None => None,
        Some((a, b)) => match split_space(&b) {
            None => None,
            Some((c, d)) => {
                let ta = trim_chars(&a);
                let tc = trim_chars(&c);
                let td = trim_chars(&d);
                if ta.len() == 0 || tc.len() == 0 || td.len() == 0 {
                    None
                } else {
                    Some((string_of(ta.as_slice()), string_of(tc.as_slice()), string_of(td.as_slice())))
                }
            },
        },
    }
}

/// A shell command.
#[derive(Debug)]
pub enum ReplCommand {
    /// A blank line.
    Empty,
    Quit,
    Help,
    Save,
    Insert { collection: String, json: String },
    Query { collection: String, filter: String },
    JsonPath { collection: String, expr: String },
    Search { collection: String, query: String },
    Get { collection: String, id: String },
    Scan { collection: String },
    Update { collection: String, id: String, json: String },
    Delete { collection: String, id: String },
    Collections,
    Compact,
    Dump,
    /// A command whose arguments do not fit: what failed, and its usage.
    Invalid { action: String, usage: String },
    /// A word that is no command, lowercased.
    Unknown(String),
}

/// The plain value of a shell command.
pub enum CommandView {
    Empty,
    Quit,
    Help,
    Save,
    Insert { collection: Seq<char>, json: Seq<char> },
    Query { collection: Seq<char>, filter: Seq<char> },
    JsonPath { collection: Seq<char>, expr: Seq<char> },
    Search { collection: Seq<char>, query: Seq<char> },
    Get { collection: Seq<char>, id: Seq<char> },
    Scan { collection: Seq<char> },
    Update { collection: Seq<char>, id: Seq<char>, json: Seq<char> },
    Delete { collection: Seq<char>, id: Seq<char> },
    Collections,
    Compact,
    Dump,
    Invalid { action: Seq<char>, usage: Seq<char> },
    Unknown(Seq<char>),
}

impl View for ReplCommand {
    type V = CommandView;

    open spec fn view(&self) -> CommandView {
        match self {
            ReplCommand::Empty => CommandView::Empty,
            ReplCommand::Quit => CommandView::Quit,
            ReplCommand::Help => CommandView::Help,
            ReplCommand::Save => CommandView::Save,
            ReplCommand::Insert { collection, json } => CommandView::Insert { collection: collection@, json: json@ },
            ReplCommand::Query { collection, filter } => CommandView::Query { collection: collection@, filter: filter@ },
            ReplCommand::JsonPath { collection, expr } => CommandView::JsonPath { collection: collection@, expr: expr@ },
            ReplCommand::Search { collection, query } => CommandView::Search { collection: collection@, query: query@ },
            ReplCommand::Get { collection, id } => CommandView::Get { collection: collection@, id: id@ },
            ReplCommand::Scan { collection } => CommandView::Scan { collection: collection@ },
            ReplCommand::Update { collection, id, json } => CommandView::Update {
                collection: collection@,
                id: id@,
                json: json@,
            },
            ReplCommand::Delete { collection, id } => CommandView::Delete { collection: collection@, id: id@ },
            ReplCommand::Collections => CommandView::Collections,
            ReplCommand::Compact => CommandView::Compact,
            ReplCommand::Dump => CommandView::Dump,
            ReplCommand::Invalid { action, usage } => CommandView::Invalid { action: action@, usage: usage@ },
            ReplCommand::Unknown(w) => CommandView::Unknown(w@),
        }
    }
}

/// A command that needs a collection and the rest of the line.
pub open spec fn with_coll_rest(
    rest: Seq<char>,
    action: Seq<char>,
    usage: Seq<char>,
    make: spec_fn(Seq<char>, Seq<char>) -> CommandView,
) -> CommandView {
    match coll_rest(rest) {
        Some((c, r)) => make(c, r),
        None => CommandView::Invalid { action, usage },
    }
}

/// The command that the word `cmd` (lowercased) and the trimmed rest of
/// the line give.
pub open spec fn command_view(cmd: Seq<char>, rest: Seq<char>) -> CommandView {
    if cmd == "quit"@ || cmd == "exit"@ {
        CommandView::Quit
    } else if cmd == "help"@ {
        CommandView::Help
    } else if cmd == "save"@ {
        CommandView::Save
    } else if cmd == "insert"@ {
        with_coll_rest(rest, "insert"@, "usage: insert <collection> <json>"@, |c: Seq<char>, r: Seq<char>| CommandView::Insert { collection: c, json: r })
    } else if cmd == "query"@ {
        with_coll_rest(rest, "query"@, "usage: query <collection> <filter>"@, |c: Seq<char>, r: Seq<char>| CommandView::Query { collection: c, filter: r })
    } else if cmd == "jsonpath"@ {
        with_coll_rest(rest, "jsonpath"@, "usage: jsonpath <collection> <expr>"@, |c: Seq<char>, r: Seq<char>| CommandView::JsonPath { collection: c, expr: r })
    } else if cmd == "search"@ {
        with_coll_rest(rest, "search"@, "usage: search <collection> <query>"@, |c: Seq<char>, r: Seq<char>| CommandView::Search { collection: c, query: r })
    } else if cmd == "get"@ {
        with_coll_rest(rest, "get"@, "usage: get <collection> <id>"@, |c: Seq<char>, r: Seq<char>| CommandView::Get { collection: c, id: r })
    } else if cmd == "scan"@ {
        if trim(rest).len() == 0 {
            CommandView::Invalid { action: "scan"@, usage: "usage: scan <collection>"@ }
        } else {
            CommandView::Scan { collection: trim(rest) }
        }
    } else if cmd == "update"@ {
        match three_args(rest) {
            Some((c, i, j)) => CommandView::Update { collection: c, id: i, json: j },
            None => CommandView::Invalid { action: "update"@, usage: "usage: update <collection> <id> <json>"@ },
        }
    } else if cmd == "delete"@ {
        with_coll_rest(rest, "delete"@, "usage: delete <collection> <id>"@, |c: Seq<char>, r: Seq<char>| CommandView::Delete { collection: c, id: r })
    } else if cmd == "collections"@ {
        CommandView::Collections
    } else if cmd == "compact"@ {
        CommandView::Compact
    } else if cmd == "dump"@ {
        CommandView::Dump
    } else {
        CommandView::Unknown(cmd)
    }
}

/// How a line reads: blank, or its first word (lowercased) as the command
/// and the rest, trimmed, as its arguments.
pub open spec fn line_command(line: Seq<char>) -> CommandView {
    let input = trim(line);
    if input.len() == 0 {
        CommandView::Empty
    } else {
        match space_split(input) {
            Some((head, rest)) => command_view(lowercase(head), trim(rest)),
            None => command_view(lowercase(input), Seq::empty()),
        }
    }
}

} // verus!

verus! {

/// The command that a word and the rest of the line give (see
/// `command_view`).
pub fn command_of(cmd: &str, rest: &str) -> (r: ReplCommand)
    ensures
        r@ == command_view(cmd@, rest@),
{
    if str_eq(cmd, "quit") || str_eq(cmd, "exit") {
        ReplCommand::Quit
    } else if str_eq(cmd, "help") {
        ReplCommand::Help
    } else if str_eq(cmd, "save") {
        ReplCommand::Save
    } else if str_eq(cmd, "insert") {
        match split_collection_rest(rest) {
            Some((c, r)) => ReplCommand::Insert { collection: c, json: r },
            None => ReplCommand::Invalid {
                action: "insert".to_owned(),
                usage: "usage: insert <collection> <json>".to_owned(),
            },
        }
    } else if str_eq(cmd, "query") {
        match split_collection_rest(rest) {
            Some((c, r)) => ReplCommand::Query { collection: c, filter: r },
            None => ReplCommand::Invalid {
                action: "query".to_owned(),
                usage: "usage: query <collection> <filter>".to_owned(),
            },
        }
    } else if str_eq(cmd, "jsonpath") {
        match split_collection_rest(rest) {
            Some((c, r)) => ReplCommand::JsonPath { collection: c, expr: r },
            None => ReplCommand::Invalid {
                action: "jsonpath".to_owned(),
                usage: "usage: jsonpath <collection> <expr>".to_owned(),
            },
        }
    } else if str_eq(cmd, "search") {
        match split_collection_rest(rest) {
            Some((c, r)) => ReplCommand::Search { collection: c, query: r },
            None => ReplCommand::Invalid {
                action: "search".to_owned(),
                usage: "usage: search <collection> <query>".to_owned(),
            },
        }
    } else if str_eq(cmd, "get") {
        match split_collection_rest(rest) {
            Some((c, r)) => ReplCommand::Get { collection: c, id: r },
            None => ReplCommand::Invalid {
                action: "get".to_owned(),
                usage: "usage: get <collection> <id>".to_owned(),
            },
        }
    } else if str_eq(cmd, "scan") {
        let t = crate::text::trim_str(rest);
        if t.as_str().is_empty() {
            ReplCommand::Invalid { action: "scan".to_owned(), usage: "usage: scan <collection>".to_owned() }
        } else {
            ReplCommand::Scan { collection: t }
        }
    } else if str_eq(cmd, "update") {
        match split_three(rest) {
            Some((c, i, j)) => ReplCommand::Update { collection: c, id: i, json: j },
            None => ReplCommand::Invalid {
                action: "update".to_owned(),
                usage: "usage: update <collection> <id> <json>".to_owned(),
            },
        }
    } else if str_eq(cmd, "delete") {
        match split_collection_rest(rest) {
            Some((c, r)) => ReplCommand::Delete { collection: c, id: r },
            None => ReplCommand::Invalid {
                action: "delete".to_owned(),
                usage: "usage: delete <collection> <id>".to_owned(),
            },
        }
    } else if str_eq(cmd, "collections") {
        ReplCommand::Collections
    } else if str_eq(cmd, "compact") {
        ReplCommand::Compact
    } else if str_eq(cmd, "dump") {
        ReplCommand::Dump
    } else {
        ReplCommand::Unknown(cmd.to_owned())
    }
}

/// How a line reads (see `line_command`).
pub fn parse_command(line: &str) -> (r: ReplCommand)
    ensures
        r@ == line_command(line@),
{
    let v = chars_of(line);
    let input = trim_chars(&v);
    if input.len() == 0 {
        return ReplCommand::Empty;
    }
    match split_space(&input) {
        Some((head, rest)) => {
            let h = string_of(head.as_slice());
            let cmd = to_lower(h.as_str());
            let r = trim_chars(&rest);
            let rs = string_of(r.as_slice());
            command_of(cmd.as_str(), rs.as_str())
        },
        None => {
            let h = string_of(input.as_slice());
            let cmd = to_lower(h.as_str());
            let empty = String::new();
            command_of(cmd.as_str(), empty.as_str())
        },
    }
}

} // verus!

verus! {

/// The shell's completion helper.
#[derive(Debug, Clone, Copy)]
pub struct CassetteHelper;

/// The command words, in alphabetical order.
pub open spec fn sorted_commands() -> Seq<Seq<char>> {
    seq![
        "collections"@,
        "compact"@,
        "delete"@,
        "dump"@,
        "exit"@,
        "get"@,
        "help"@,
        "insert"@,
        "jsonpath"@,
        "query"@,
        "quit"@,
        "save"@,
        "scan"@,
        "search"@,
        "update"@,
    ]
}

/// Where the word being completed starts: after the last space before
/// `pos`, or at 0.
pub open spec fn word_start(b: Seq<u8>, pos: int) -> int
    decreases pos,
{
    if pos <= 0 {
        0
    } else if b[pos - 1] == 32u8 {
        pos
    } else {
        word_start(b, pos - 1)
    }
}

/// Whether the bytes `p` begin the word `w` (of ASCII characters).
pub open spec fn begins(p: Seq<u8>) -> spec_fn(Seq<char>) -> bool {
    |w: Seq<char>| p.len() <= w.len() && forall|i: int| 0 <= i < p.len() ==> p[i] as u32 == w[i] as u32
}

/// The completions of the word before `pos`: where it starts, and the
/// command words it begins, in alphabetical order.
pub open spec fn completions(b: Seq<u8>, pos: int) -> (int, Seq<Seq<char>>) {
    let start = word_start(b, pos);
    (start, crate::seqs::keep(sorted_commands(), begins(b.subrange(start, pos))))
}

fn command_words() -> (r: Vec<&'static str>)
    ensures
        r@.map_values(|s: &str| s@) == sorted_commands(),
{
    let v: Vec<&'static str> = vec![
        "collections",
        "compact",
        "delete",
        "dump",
        "exit",
        "get",
        "help",
        "insert",
        "jsonpath",
        "query",
        "quit",
        "save",
        "scan",
        "search",
        "update",
    ];
    assert(v@.map_values(|s: &str| s@) =~= sorted_commands());
    v
}

/// Whether the bytes `b[from..to]` begin the word `w`.
fn begins_word(b: &[u8], from: usize, to: usize, w: &str) -> (r: bool)
    requires
        from <= to <= b@.len(),
    ensures
        r == begins(b@.subrange(from as int, to as int))(w@),
{
    let wc = chars_of(w);
    let n = to - from;
    if n > wc.len() {
        return false;
    }
    let mut i: usize = 0;
    while i < n
        invariant
            i <= n,
            n == to - from,
            to <= b@.len(),
            n <= wc@.len(),
            wc@ == w@,
            forall|j: int| 0 <= j < i ==> b@.subrange(from as int, to as int)[j] as u32 == wc@[j] as u32,
        decreases n - i,
    {
        if b[from + i] as u32 != wc[i] as u32 {
            assert(b@.subrange(from as int, to as int)[i as int] == b@[from + i]);
            return false;
        }
        i = i + 1;
    }
    true
}

impl CassetteHelper {
    /// Completes the word before the byte position `pos` of `line` (see
    /// `completions`).
    pub fn complete(&self, line: &str, pos: usize) -> (r: (usize, Vec<String>))
        requires
            pos <= line.spec_bytes().len(),
            vstd::utf8::is_char_boundary(line.spec_bytes(), pos as int),
        ensures
            r.0 == completions(line.spec_bytes(), pos as int).0,
            views(r.1@) == completions(line.spec_bytes(), pos as int).1,
    {
        let b = line.as_bytes();
        let mut start = pos;
        while start > 0 && b[start - 1] != 32u8
            invariant
                start <= pos <= b@.len(),
                word_start(b@, pos as int) == word_start(b@, start as int),
            decreases start,
        {
            start = start - 1;
        }
        let words = command_words();
        let ghost ws = sorted_commands();
        let ghost p = begins(b@.subrange(start as int, pos as int));
        let mut out: Vec<String> = Vec::new();
        let mut i: usize = 0;
        while i < words.len()
            invariant
                i <= words@.len(),
                words@.map_values(|s: &str| s@) == ws,
                start <= pos <= b@.len(),
                p == begins(b@.subrange(start as int, pos as int)),
                views(out@) == crate::seqs::keep(ws.subrange(0, i as int), p),
            decreases words.len() - i,
        {
            proof {
                crate::seqs::lemma_keep_step(ws, p, i as int);
            }
            assert(ws[i as int] == words@[i as int]@);
            if begins_word(b, start, pos, words[i]) {
                let ghost before = views(out@);
                out.push(words[i].to_owned());
                assert(views(out@) =~= before.push(ws[i as int]));
            }
            i = i + 1;
        }
        assert(ws.subrange(0, ws.len() as int) =~= ws);
        (start, out)
    }
}

} // verus!
