//! User feedback entries.  Entries are kept one JSON line each; reading
//! the log skips blank lines.
use vstd::prelude::*;
use crate::text::{trim, views};

verus! {

/// Categories of user feedback.
#[derive(Debug, Clone, Copy, PartialEq, Eq, Structural)]
pub enum FeedbackCategory {
    Bug,
    FeatureRequest,
    Performance,
    Documentation,
    General,
}

/// A single feedback entry.
#[derive(Debug)]
pub struct FeedbackEntry {
    pub timestamp: String,
    pub category: FeedbackCategory,
    pub message: String,
    pub version: String,
    pub contact: Option<String>,
}

impl FeedbackEntry {
    /// An entry stamped with the current time (RFC 3339).
    pub fn new(category: FeedbackCategory, message: String, version: String, contact: Option<String>) -> (r: Self)
        ensures
            r.category == category,
            r.message == message,
            r.version == version,
            r.contact == contact,
    {
        FeedbackEntry { timestamp: crate::time::now_rfc3339(), category, message, version, contact }
    }
}

/// The lines of a text, as `str::lines` gives them: split at `\n`, a
/// `\r` just before a `\n` dropped, and no empty last line after a final
/// `\n`.
pub open spec fn text_lines(s: Seq<char>) -> Seq<Seq<char>> {
    let pieces = crate::text::split_on(s, '\n');
    let ps = if pieces.len() > 0 && pieces.last().len() == 0 {
        pieces.drop_last()
    } else {
        pieces
    };
    Seq::new(ps.len(), |j: int| line_of(pieces, j))
}

/// The `j`th piece of a text split at `\n`, without a `\r` that ends it
/// just before the `\n`.
pub open spec fn line_of(pieces: Seq<Seq<char>>, j: int) -> Seq<char> {
    let l = pieces[j];
    if j < pieces.len() - 1 && l.len() > 0 && l.last() == '\r' {
        l.drop_last()
    } else {
        l
    }
}

/// Whether a line holds more than white space.
pub open spec fn not_blank() -> spec_fn(Seq<char>) -> bool {
    |l: Seq<char>| trim(l).len() > 0
}

/// The lines of a feedback log that hold entries: every line but the blank
/// ones, in order.
pub open spec fn entry_lines(s: Seq<char>) -> Seq<Seq<char>> {
    crate::seqs::keep(text_lines(s), not_blank())
}

/// The lines of a feedback log that hold entries (see `entry_lines`).
pub fn feedback_lines(raw: &str) -> (r: Vec<String>)
    ensures
        views(r@) == entry_lines(raw@),
{
    let chars = crate::text::chars_of(raw);
    let pieces = crate::text::split_chars(&chars, '\n');
    let ghost pv = pieces@.map_values(|v: Vec<char>| v@);
    let mut n = pieces.len();
    if n > 0 && pieces[n - 1].len() == 0 {
        n = n - 1;
    }
    let ghost ps = if pv.len() > 0 && pv.last().len() == 0 {
        pv.drop_last()
    } else {
        pv
    };
    assert(ps.len() == n);
    let ghost lines = text_lines(raw@);
    assert(lines.len() == n);
    let mut out: Vec<String> = Vec::new();
    let mut i: usize = 0;
    while i < n
        invariant
            i <= n,
            n <= pieces@.len(),
            pv == pieces@.map_values(|v: Vec<char>| v@),
            lines == text_lines(raw@),
            lines.len() == n,
            pv == crate::text::split_on(raw@, '\n'),
            forall|j: int| 0 <= j < n ==> #[trigger] lines[j] == line_of(pv, j),
            views(out@) == crate::seqs::keep(lines.subrange(0, i as int), not_blank()),
        decreases n - i,
    {
        proof {
            crate::seqs::lemma_keep_step(lines, not_blank(), i as int);
        }
        let piece = &pieces[i];
        assert(pv[i as int] == piece@);
        let mut line: Vec<char> = Vec::new();
        let len = piece.len();
        let cut = if i + 1 < pieces.len() && len > 0 && piece[len - 1] == '\r' {
            len - 1
        } else {
            len
        };
        let mut k: usize = 0;
        while k < cut
            invariant
                k <= cut <= piece@.len(),
                line@ == piece@.take(k as int),
            decreases cut - k,
        {
            line.push(piece[k]);
            k = k + 1;
            assert(line@ =~= piece@.take(k as int));
        }
        assert(line@ =~= lines[i as int]);
        let t = crate::text::trim_chars(&line);
        if t.len() > 0 {
            let ghost before = views(out@);
            out.push(crate::text::string_of(line.as_slice()));
            assert(views(out@) =~= before.push(lines[i as int]));
        }
        i = i + 1;
    }
    assert(lines.subrange(0, lines.len() as int) =~= lines);
    out
}

} // verus!
