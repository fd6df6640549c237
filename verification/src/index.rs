//! The inverted index for full-text search: each term maps to the set of
//! documents whose strings contain it.
use vstd::prelude::*;
use crate::assoc::assoc_get;
use crate::json::{collect_strings, json_strings, JsonValue};
use crate::seqs::{keep, lemma_keep_step};
use crate::text::{chars_of, str_eq, string_of, views};

verus! {

/// The lowercase form of `s`, as `str::to_lowercase` maps it.
pub uninterp spec fn lowercase(s: Seq<char>) -> Seq<char>;

/// Whether `c` is alphabetic or numeric, as `char::is_alphanumeric` says.
pub uninterp spec fn alphanumeric(c: char) -> bool;

/// std `str::to_lowercase`: the Unicode lowercase mapping of `s`.
#[verifier::external_body]
pub(crate) fn to_lower(s: &str) -> (r: String)
    ensures
        r@ == lowercase(s@),
{
    s.to_lowercase()
}

/// std `char::is_alphanumeric`: whether `c` is alphabetic or numeric.
#[verifier::external_body]
fn is_alnum(c: char) -> (r: bool)
    ensures
        r == alphanumeric(c),
{
    c.is_alphanumeric()
}

/// `s` cut at every character that is not alphanumeric.
pub open spec fn split_words(s: Seq<char>) -> Seq<Seq<char>>
    decreases s.len(),
{
    if s.len() == 0 {
        seq![Seq::<char>::empty()]
    } else {
        let init = split_words(s.drop_last());
        if !alphanumeric(s.last()) {
            init.push(Seq::<char>::empty())
        } else {
            init.update(init.len() - 1, init.last().push(s.last()))
        }
    }
}

proof fn lemma_split_words_nonempty(s: Seq<char>)
    ensures
        split_words(s).len() >= 1,
    decreases s.len(),
{
    if s.len() > 0 {
        lemma_split_words_nonempty(s.drop_last());
    }
}

/// The test that a word is not empty.
pub open spec fn nonempty() -> spec_fn(Seq<char>) -> bool {
    |w: Seq<char>| w.len() > 0
}

/// The tokens of a text: its lowercase form cut at every character that is
/// not alphanumeric, without the empty pieces.
pub open spec fn tokens(text: Seq<char>) -> Seq<Seq<char>> {
    keep(split_words(lowercase(text)), nonempty())
}

proof fn lemma_keep_push(s: Seq<Seq<char>>, w: Seq<char>)
    ensures
        keep(s.push(w), nonempty()) == if w.len() > 0 {
            keep(s, nonempty()).push(w)
        } else {
            keep(s, nonempty())
        },
{
    assert(s.push(w).drop_last() =~= s);
}

/// The set of documents listed for `term` (empty when it has no entry).
pub open spec fn postings(v: Seq<(Seq<char>, Seq<Seq<char>>)>, term: Seq<char>) -> Set<Seq<char>> {
    match assoc_get(v, term) {
        Some(ids) => ids.to_set(),
        None => Set::empty(),
    }
}

/// The documents found by a search for `query`: those listed for every
/// token of it; nothing when it has no tokens.
pub open spec fn search_result(v: Seq<(Seq<char>, Seq<Seq<char>>)>, query: Seq<char>) -> Set<Seq<char>> {
    let ts = tokens(query);
    if ts.len() == 0 {
        Set::empty()
    } else {
        Set::new(|id: Seq<char>| forall|i: int| 0 <= i < ts.len() ==> #[trigger] postings(v, ts[i]).contains(id))
    }
}

/// A simple inverted index.
#[derive(Debug)]
pub struct InvertedIndex {
    terms: Vec<(String, Vec<String>)>,
}

impl InvertedIndex {
    /// The entries: each term with the documents listed for it.
    pub closed spec fn spec_entries(&self) -> Seq<(Seq<char>, Seq<Seq<char>>)> {
        self.terms@.map_values(|e: (String, Vec<String>)| (e.0@, views(e.1@)))
    }

    /// Well-formed: each term once, each list without repeats and not empty.
    #[verifier::type_invariant]
    spec fn wf(&self) -> bool {
        &&& forall|i: int, j: int|
            0 <= i < j < self.terms@.len() ==> (#[trigger] self.terms@[i]).0@ != (#[trigger] self.terms@[j]).0@
        &&& forall|i: int|
            0 <= i < self.terms@.len() ==> views((#[trigger] self.terms@[i]).1@).no_duplicates()
                && self.terms@[i].1@.len() > 0
    }
}

impl View for InvertedIndex {
    type V = Seq<(Seq<char>, Seq<Seq<char>>)>;

    open spec fn view(&self) -> Seq<(Seq<char>, Seq<Seq<char>>)> {
        self.spec_entries()
    }
}

impl InvertedIndex {
    /// An empty index.
    pub fn new() -> (r: Self)
        ensures
            r@ == Seq::<(Seq<char>, Seq<Seq<char>>)>::empty(),
            forall|t: Seq<char>| postings(r@, t) == Set::<Seq<char>>::empty(),
    {
        let r = InvertedIndex { terms: Vec::new() };
        assert(r@ =~= Seq::<(Seq<char>, Seq<Seq<char>>)>::empty());
        r
    }

    /// The tokens of `text` (see `tokens`).
    pub fn tokenize(text: &str) -> (r: Vec<String>)
        ensures
            views(r@) == tokens(text@),
    {
        let lower = to_lower(text);
        let cs = chars_of(lower.as_str());
        let ghost s = cs@;
        let mut out: Vec<String> = Vec::new();
        let mut cur: Vec<char> = Vec::new();
        let ghost mut done: Seq<Seq<char>> = Seq::empty();
        let mut i: usize = 0;
        assert(s.take(0) =~= Seq::<char>::empty());
        while i < cs.len()
            invariant
                i <= cs@.len(),
                s == cs@,
                split_words(s.take(i as int)) == done.push(cur@),
                views(out@) == keep(done, nonempty()),
            decreases cs.len() - i,
        {
            let c = cs[i];
            assert(s.take(i + 1).drop_last() =~= s.take(i as int));
            assert(s.take(i + 1).last() == c);
            if is_alnum(c) {
                let ghost old_cur = cur@;
                cur.push(c);
                assert(done.push(old_cur).last() == old_cur);
                assert(done.push(cur@) =~= done.push(old_cur).update(done.len() as int, old_cur.push(c)));
            } else {
                proof {
                    lemma_keep_push(done, cur@);
                }
                if cur.len() > 0 {
                    let w = string_of(cur.as_slice());
                    let ghost before = out@;
                    out.push(w);
                    assert(views(out@) =~= views(before).push(w@));
                }
                proof {
                    done = done.push(cur@);
                }
                cur = Vec::new();
                assert(cur@ =~= Seq::<char>::empty());
            }
            i = i + 1;
        }
        assert(s.take(i as int) =~= s);
        proof {
            lemma_keep_push(done, cur@);
        }
        if cur.len() > 0 {
            let w = string_of(cur.as_slice());
            let ghost before = out@;
            out.push(w);
            assert(views(out@) =~= views(before).push(w@));
        }
        out
    }
}

} // verus!

verus! {

/// The tokens of each string, in order.
pub open spec fn all_tokens(strings: Seq<Seq<char>>) -> Seq<Seq<char>>
    decreases strings.len(),
{
    if strings.len() == 0 {
        Seq::empty()
    } else {
        all_tokens(strings.drop_last()) + tokens(strings.last())
    }
}

impl InvertedIndex {
    fn term_pos(&self, term: &str) -> (r: Option<usize>)
        ensures
            match r {
                Some(i) => i < self@.len() && self@[i as int].0 == term@ && forall|j: int|
                    0 <= j < i ==> #[trigger] self@[j].0 != term@,
                None => forall|j: int| 0 <= j < self@.len() ==> #[trigger] self@[j].0 != term@,
            },
    {
        let mut i: usize = 0;
        while i < self.terms.len()
            invariant
                i <= self.terms.len(),
                self@.len() == self.terms@.len(),
                forall|j: int| 0 <= j < i ==> #[trigger] self@[j].0 != term@,
            decreases self.terms.len() - i,
        {
            assert(self@[i as int].0 == self.terms@[i as int].0@);
            if str_eq(self.terms[i].0.as_str(), term) {
                return Some(i);
            }
            i = i + 1;
        }
        None
    }

    /// Lists `id` under `term`.
    fn add(&mut self, term: String, id: &str)
        ensures
            forall|t: Seq<char>|
                #[trigger] postings(final(self)@, t) == if t == term@ {
                    postings(old(self)@, t).insert(id@)
                } else {
                    postings(old(self)@, t)
                },
    {
        proof {
            use_type_invariant(&*self);
        }
        let ghost s = self@;
        match self.term_pos(term.as_str()) {
            Some(i) => {
                let ids = &self.terms[i].1;
                assert(s[i as int].1 == views(ids@));
                if crate::text::contains_str(ids, id) {
                    assert forall|t: Seq<char>| #[trigger] postings(self@, t) == if t == term@ {
                        postings(s, t).insert(id@)
                    } else {
                        postings(s, t)
                    } by {
                        if t == term@ {
                            crate::assoc::lemma_get_at(s, t, i as int);
                            assert(postings(s, t).insert(id@) =~= postings(s, t));
                        }
                    }
                    return;
                }
                let mut new_ids = crate::text::clone_strings(ids);
                let ghost old_ids = views(new_ids@);
                new_ids.push(id.to_owned());
                assert(views(new_ids@) =~= old_ids.push(id@));
                proof {
                    assert(old_ids.no_duplicates());
                    assert(!old_ids.contains(id@));
                    assert(views(new_ids@).no_duplicates()) by {
                        assert forall|a: int, b: int| 0 <= a < b < views(new_ids@).len() implies views(new_ids@)[a]
                            != views(new_ids@)[b] by {
                            if b == old_ids.len() {
                                assert(old_ids[a] == views(new_ids@)[a]);
                            }
                        }
                    }
                }
                let ghost tv = term@;
                let mut terms: Vec<(String, Vec<String>)> = Vec::new();
                std::mem::swap(&mut terms, &mut self.terms);
                terms.set(i, (term, new_ids));
                self.terms = terms;
                assert(self@ =~= s.update(i as int, (s[i as int].0, old_ids.push(id@))));
                assert forall|t: Seq<char>| #[trigger] postings(self@, t) == if t == tv {
                    postings(s, t).insert(id@)
                } else {
                    postings(s, t)
                } by {
                    crate::assoc::lemma_get_update_value(s, i as int, old_ids.push(id@), t);
                    if t == tv {
                        crate::assoc::lemma_get_at(s, t, i as int);
                        old_ids.lemma_push_to_set_commute(id@);
                    }
                }
            },
            None => {
                let mut ids: Vec<String> = Vec::new();
                ids.push(id.to_owned());
                assert(views(ids@) =~= seq![id@]);
                let ghost tv = term@;
                let mut terms: Vec<(String, Vec<String>)> = Vec::new();
                std::mem::swap(&mut terms, &mut self.terms);
                assert(terms@.map_values(|e: (String, Vec<String>)| (e.0@, views(e.1@))) == s);
                terms.push((term, ids));
                proof {
                    assert forall|a: int, b: int| 0 <= a < b < terms@.len() implies (#[trigger] terms@[a]).0@
                        != (#[trigger] terms@[b]).0@ by {
                        if b == terms@.len() - 1 {
                            assert(s[a].0 == terms@[a].0@);
                        }
                    }
                    assert(views(terms@[terms@.len() - 1].1@).no_duplicates());
                }
                self.terms = terms;
                assert(self@ =~= s.push((tv, seq![id@])));
                assert forall|t: Seq<char>| #[trigger] postings(self@, t) == if t == tv {
                    postings(s, t).insert(id@)
                } else {
                    postings(s, t)
                } by {
                    crate::assoc::lemma_get_push(s, tv, seq![id@], t);
                    if t == tv {
                        crate::assoc::lemma_get_absent(s, t);
                        Seq::<Seq<char>>::empty().lemma_push_to_set_commute(id@);
                        assert(Seq::<Seq<char>>::empty().push(id@) =~= seq![id@]);
                        assert(Seq::<Seq<char>>::empty().to_set() =~= Set::<Seq<char>>::empty());
                    }
                }
            },
        }
    }
}

} // verus!

verus! {

/// `ids` without `id`, in order.
fn without(ids: &Vec<String>, id: &str) -> (r: Vec<String>)
    ensures
        views(r@).to_set() == views(ids@).to_set().remove(id@),
        views(ids@).no_duplicates() ==> views(r@).no_duplicates(),
        views(r@).len() == 0 ==> forall|x: Seq<char>| views(ids@).contains(x) ==> x == id@,
{
    let ghost all = views(ids@);
    let mut out: Vec<String> = Vec::new();
    let mut i: usize = 0;
    while i < ids.len()
        invariant
            i <= ids@.len(),
            all == views(ids@),
            forall|x: Seq<char>| #[trigger] views(out@).contains(x) <==> (all.take(i as int).contains(x) && x != id@),
            all.no_duplicates() ==> views(out@).no_duplicates(),
        decreases ids.len() - i,
    {
        let ghost before = views(out@);
        let ghost p = all.take(i as int);
        let ghost xi = all[i as int];
        assert(all.take(i + 1) =~= p.push(xi));
        assert(xi == ids@[i as int]@);
        assert forall|x: Seq<char>| p.push(xi).contains(x) <==> (p.contains(x) || x == xi) by {
            if p.push(xi).contains(x) {
                let q = choose|q: int| 0 <= q < p.push(xi).len() && p.push(xi)[q] == x;
                if q < p.len() {
                    assert(p[q] == x);
                }
            }
            if p.contains(x) {
                let q = choose|q: int| 0 <= q < p.len() && p[q] == x;
                assert(p.push(xi)[q] == x);
            }
            if x == xi {
                assert(p.push(xi)[p.len() as int] == x);
            }
        }
        let keep_it = !str_eq(ids[i].as_str(), id);
        if keep_it {
            out.push(ids[i].clone());
            assert(views(out@) =~= before.push(xi));
            assert forall|x: Seq<char>| before.push(xi).contains(x) <==> (before.contains(x) || x == xi) by {
                if before.push(xi).contains(x) {
                    let q = choose|q: int| 0 <= q < before.push(xi).len() && before.push(xi)[q] == x;
                    if q < before.len() {
                        assert(before[q] == x);
                    }
                }
                if before.contains(x) {
                    let q = choose|q: int| 0 <= q < before.len() && before[q] == x;
                    assert(before.push(xi)[q] == x);
                }
                if x == xi {
                    assert(before.push(xi)[before.len() as int] == x);
                }
            }
            proof {
                if all.no_duplicates() {
                    assert(!before.contains(xi)) by {
                        if before.contains(xi) {
                            assert(p.contains(xi));
                            let k = choose|k: int| 0 <= k < p.len() && p[k] == xi;
                            assert(all[k] == all[i as int]);
                        }
                    }
                }
            }
        }
        assert forall|x: Seq<char>| #[trigger] views(out@).contains(x) <==> (all.take(i + 1).contains(x) && x
            != id@) by {
            assert(before.contains(x) <==> (p.contains(x) && x != id@));
            assert(p.push(xi).contains(x) <==> (p.contains(x) || x == xi));
            if keep_it {
                assert(before.push(xi).contains(x) <==> (before.contains(x) || x == xi));
            }
        }
        i = i + 1;
    }
    assert(all.take(i as int) =~= all);
    assert(views(out@).to_set() =~= all.to_set().remove(id@));
    assert forall|x: Seq<char>| all.contains(x) && views(out@).len() == 0 implies x == id@ by {
        if x != id@ {
            assert(views(out@).contains(x));
        }
    }
    out
}

impl InvertedIndex {
    /// Takes `id` off the list of `term`; an emptied term is dropped.
    fn remove(&mut self, term: &str, id: &str)
        ensures
            forall|t: Seq<char>|
                #[trigger] postings(final(self)@, t) == if t == term@ {
                    postings(old(self)@, t).remove(id@)
                } else {
                    postings(old(self)@, t)
                },
    {
        proof {
            use_type_invariant(&*self);
        }
        let ghost s = self@;
        match self.term_pos(term) {
            None => {
                assert forall|t: Seq<char>| #[trigger] postings(self@, t) == if t == term@ {
                    postings(s, t).remove(id@)
                } else {
                    postings(s, t)
                } by {
                    if t == term@ {
                        crate::assoc::lemma_get_absent(s, t);
                        assert(postings(s, t).remove(id@) =~= postings(s, t));
                    }
                }
            },
            Some(i) => {
                let new_ids = without(&self.terms[i].1, id);
                let ghost nv = views(new_ids@);
                assert(s[i as int].1 == views(self.terms@[i as int].1@));
                let mut terms: Vec<(String, Vec<String>)> = Vec::new();
                std::mem::swap(&mut terms, &mut self.terms);
                assert(terms@.map_values(|e: (String, Vec<String>)| (e.0@, views(e.1@))) == s);
                if new_ids.len() == 0 {
                    terms.remove(i);
                    proof {
                        assert forall|a: int, b: int| 0 <= a < b < terms@.len() implies (#[trigger] terms@[a]).0@
                            != (#[trigger] terms@[b]).0@ by {
                            let a0 = if a < i { a } else { a + 1 };
                            let b0 = if b < i { b } else { b + 1 };
                            assert(s[a0].0 == terms@[a].0@ && s[b0].0 == terms@[b].0@);
                        }
                    }
                    self.terms = terms;
                    assert(self@ =~= s.remove(i as int));
                    assert forall|t: Seq<char>| #[trigger] postings(self@, t) == if t == term@ {
                        postings(s, t).remove(id@)
                    } else {
                        postings(s, t)
                    } by {
                        assert forall|j: int| 0 <= j < s.len() && j != i implies s[j].0 != s[i as int].0 by {
                            assert(s[j].0 == old(self).terms@[j].0@);
                        }
                        crate::assoc::lemma_get_remove_at(s, i as int, t);
                        if t == term@ {
                            crate::assoc::lemma_get_at(s, t, i as int);
                            assert(postings(s, t).remove(id@) =~= Set::<Seq<char>>::empty());
                        }
                    }
                } else {
                    let ghost tv = s[i as int].0;
                    let key = terms[i].0.clone();
                    terms.set(i, (key, new_ids));
                    self.terms = terms;
                    assert(self@ =~= s.update(i as int, (tv, nv)));
                    assert forall|t: Seq<char>| #[trigger] postings(self@, t) == if t == term@ {
                        postings(s, t).remove(id@)
                    } else {
                        postings(s, t)
                    } by {
                        crate::assoc::lemma_get_update_value(s, i as int, nv, t);
                        if t == term@ {
                            crate::assoc::lemma_get_at(s, t, i as int);
                        }
                    }
                }
            },
        }
    }

    /// Lists `doc_id` under every token of every string of `value`.
    pub fn index_document(&mut self, doc_id: &str, value: &JsonValue)
        ensures
            forall|t: Seq<char>|
                #[trigger] postings(final(self)@, t) == if all_tokens(json_strings(*value)).contains(t) {
                    postings(old(self)@, t).insert(doc_id@)
                } else {
                    postings(old(self)@, t)
                },
    {
        let mut strings: Vec<String> = Vec::new();
        collect_strings(value, &mut strings);
        assert(views(strings@) =~= json_strings(*value));
        let ghost ss = views(strings@);
        let mut k: usize = 0;
        assert(all_tokens(ss.take(0)) =~= Seq::<Seq<char>>::empty());
        while k < strings.len()
            invariant
                k <= strings@.len(),
                ss == views(strings@),
                forall|t: Seq<char>|
                    #[trigger] postings(self@, t) == if all_tokens(ss.take(k as int)).contains(t) {
                        postings(old(self)@, t).insert(doc_id@)
                    } else {
                        postings(old(self)@, t)
                    },
            decreases strings.len() - k,
        {
            let toks = Self::tokenize(strings[k].as_str());
            let ghost before_tokens = all_tokens(ss.take(k as int));
            assert(ss.take(k + 1).drop_last() =~= ss.take(k as int));
            assert(all_tokens(ss.take(k + 1)) == before_tokens + tokens(ss[k as int]));
            let mut j: usize = 0;
            while j < toks.len()
                invariant
                    j <= toks@.len(),
                    forall|t: Seq<char>|
                        #[trigger] postings(self@, t) == if (before_tokens + views(toks@).take(j as int)).contains(t) {
                            postings(old(self)@, t).insert(doc_id@)
                        } else {
                            postings(old(self)@, t)
                        },
                decreases toks.len() - j,
            {
                let ghost pre = self@;
                let ghost tj = toks@[j as int]@;
                self.add(toks[j].clone(), doc_id);
                assert(before_tokens + views(toks@).take(j + 1) =~= (before_tokens + views(toks@).take(j as int)).push(tj));
                assert forall|t: Seq<char>| #[trigger] postings(self@, t) == if (before_tokens + views(toks@).take(j + 1)).contains(t) {
                    postings(old(self)@, t).insert(doc_id@)
                } else {
                    postings(old(self)@, t)
                } by {
                    let p = before_tokens + views(toks@).take(j as int);
                    assert(p.push(tj).contains(t) <==> (p.contains(t) || t == tj)) by {
                        if p.push(tj).contains(t) {
                            let q = choose|q: int| 0 <= q < p.push(tj).len() && p.push(tj)[q] == t;
                            if q < p.len() {
                                assert(p[q] == t);
                            }
                        }
                        if p.contains(t) {
                            let q = choose|q: int| 0 <= q < p.len() && p[q] == t;
                            assert(p.push(tj)[q] == t);
                        }
                        if t == tj {
                            assert(p.push(tj)[p.len() as int] == t);
                        }
                    }
                    assert(postings(old(self)@, t).insert(doc_id@).insert(doc_id@) =~= postings(old(self)@, t).insert(doc_id@));
                }
                j = j + 1;
            }
            assert(views(toks@).take(j as int) =~= tokens(ss[k as int]));
            k = k + 1;
        }
        assert(ss.take(k as int) =~= ss);
    }
}

} // verus!

verus! {

proof fn lemma_push_contains(p: Seq<Seq<char>>, y: Seq<char>, x: Seq<char>)
    ensures
        p.push(y).contains(x) <==> (p.contains(x) || x == y),
{
    if p.push(y).contains(x) {
        let q = choose|q: int| 0 <= q < p.push(y).len() && p.push(y)[q] == x;
        if q < p.len() {
            assert(p[q] == x);
        }
    }
    if p.contains(x) {
        let q = choose|q: int| 0 <= q < p.len() && p[q] == x;
        assert(p.push(y)[q] == x);
    }
    if x == y {
        assert(p.push(y)[p.len() as int] == x);
    }
}

impl InvertedIndex {
    /// Takes `doc_id` off the list of every token of every string of
    /// `value`; emptied terms are dropped.
    pub fn remove_document(&mut self, doc_id: &str, value: &JsonValue)
        ensures
            forall|t: Seq<char>|
                #[trigger] postings(final(self)@, t) == if all_tokens(json_strings(*value)).contains(t) {
                    postings(old(self)@, t).remove(doc_id@)
                } else {
                    postings(old(self)@, t)
                },
    {
        let mut strings: Vec<String> = Vec::new();
        collect_strings(value, &mut strings);
        assert(views(strings@) =~= json_strings(*value));
        let ghost ss = views(strings@);
        let mut k: usize = 0;
        assert(all_tokens(ss.take(0)) =~= Seq::<Seq<char>>::empty());
        while k < strings.len()
            invariant
                k <= strings@.len(),
                ss == views(strings@),
                forall|t: Seq<char>|
                    #[trigger] postings(self@, t) == if all_tokens(ss.take(k as int)).contains(t) {
                        postings(old(self)@, t).remove(doc_id@)
                    } else {
                        postings(old(self)@, t)
                    },
            decreases strings.len() - k,
        {
            let toks = Self::tokenize(strings[k].as_str());
            let ghost before_tokens = all_tokens(ss.take(k as int));
            assert(ss.take(k + 1).drop_last() =~= ss.take(k as int));
            assert(all_tokens(ss.take(k + 1)) == before_tokens + tokens(ss[k as int]));
            let mut j: usize = 0;
            while j < toks.len()
                invariant
                    j <= toks@.len(),
                    forall|t: Seq<char>|
                        #[trigger] postings(self@, t) == if (before_tokens + views(toks@).take(j as int)).contains(t) {
                            postings(old(self)@, t).remove(doc_id@)
                        } else {
                            postings(old(self)@, t)
                        },
                decreases toks.len() - j,
            {
                let ghost tj = toks@[j as int]@;
                self.remove(toks[j].as_str(), doc_id);
                assert(before_tokens + views(toks@).take(j + 1) =~= (before_tokens + views(toks@).take(j as int)).push(tj));
                assert forall|t: Seq<char>| #[trigger] postings(self@, t) == if (before_tokens + views(toks@).take(j + 1)).contains(t) {
                    postings(old(self)@, t).remove(doc_id@)
                } else {
                    postings(old(self)@, t)
                } by {
                    lemma_push_contains(before_tokens + views(toks@).take(j as int), tj, t);
                    assert(postings(old(self)@, t).remove(doc_id@).remove(doc_id@) =~= postings(old(self)@, t).remove(doc_id@));
                }
                j = j + 1;
            }
            assert(views(toks@).take(j as int) =~= tokens(ss[k as int]));
            k = k + 1;
        }
        assert(ss.take(k as int) =~= ss);
    }

    /// The documents listed under every token of `query`, each once (see
    /// `search_result`), in the order of the first token's list.
    pub fn search(&self, query: &str) -> (r: Vec<String>)
        ensures
            views(r@).to_set() == search_result(self@, query@),
            views(r@).no_duplicates(),
    {
        proof {
            use_type_invariant(self);
        }
        let ts = Self::tokenize(query);
        let ghost tv = views(ts@);
        if ts.len() == 0 {
            let r: Vec<String> = Vec::new();
            assert(views(r@).to_set() =~= Set::<Seq<char>>::empty());
            return r;
        }
        let ghost target = search_result(self@, query@);
        let mut result: Vec<String> = match self.term_pos(ts[0].as_str()) {
            None => {
                proof {
                    crate::assoc::lemma_get_absent(self@, tv[0]);
                    assert(postings(self@, tv[0]) =~= Set::<Seq<char>>::empty());
                    assert(target =~= Set::<Seq<char>>::empty());
                }
                let r: Vec<String> = Vec::new();
                assert(views(r@).to_set() =~= Set::<Seq<char>>::empty());
                return r;
            },
            Some(i) => {
                proof {
                    crate::assoc::lemma_get_at(self@, tv[0], i as int);
                }
                assert(self@[i as int].1 == views(self.terms@[i as int].1@));
                let r = crate::text::clone_strings(&self.terms[i].1);
                assert(postings(self@, tv[0]) == views(r@).to_set());
                assert(views(r@).no_duplicates());
                r
            },
        };
        assert forall|x: Seq<char>| #[trigger] views(result@).contains(x) <==> (forall|m: int|
            0 <= m < 1 ==> #[trigger] postings(self@, tv[m]).contains(x)) by {
            if forall|m: int| 0 <= m < 1 ==> #[trigger] postings(self@, tv[m]).contains(x) {
                assert(postings(self@, tv[0]).contains(x));
            }
        }
        let mut k: usize = 1;
        while k < ts.len()
            invariant
                1 <= k <= ts@.len(),
                tv == views(ts@),
                tv == tokens(query@),
                target == search_result(self@, query@),
                views(result@).no_duplicates(),
                forall|x: Seq<char>|
                    #[trigger] views(result@).contains(x) <==> (forall|m: int|
                        0 <= m < k ==> #[trigger] postings(self@, tv[m]).contains(x)),
            decreases ts.len() - k,
        {
            match self.term_pos(ts[k].as_str()) {
                None => {
                    proof {
                        crate::assoc::lemma_get_absent(self@, tv[k as int]);
                        assert(target =~= Set::<Seq<char>>::empty()) by {
                            assert forall|x: Seq<char>| !target.contains(x) by {
                                assert(!postings(self@, tv[k as int]).contains(x));
                            }
                        }
                    }
                    let r: Vec<String> = Vec::new();
                    assert(views(r@).to_set() =~= Set::<Seq<char>>::empty());
                    return r;
                },
                Some(i) => {
                    proof {
                        crate::assoc::lemma_get_at(self@, tv[k as int], i as int);
                    }
                    let list = &self.terms[i].1;
                    assert(self@[i as int].1 == views(list@));
                    let ghost old_result = views(result@);
                    let mut kept: Vec<String> = Vec::new();
                    let mut j: usize = 0;
                    while j < result.len()
                        invariant
                            j <= result@.len(),
                            old_result == views(result@),
                            old_result.no_duplicates(),
                            views(kept@).no_duplicates(),
                            forall|x: Seq<char>|
                                #[trigger] views(kept@).contains(x) <==> (old_result.take(j as int).contains(x)
                                    && views(list@).contains(x)),
                        decreases result.len() - j,
                    {
                        let ghost before = views(kept@);
                        let ghost xj = old_result[j as int];
                        assert(xj == result@[j as int]@);
                        assert(old_result.take(j + 1) =~= old_result.take(j as int).push(xj));
                        let keep_it = crate::text::contains_str(list, result[j].as_str());
                        if keep_it {
                            kept.push(result[j].clone());
                            assert(views(kept@) =~= before.push(xj));
                            assert(!before.contains(xj)) by {
                                if before.contains(xj) {
                                    let q = choose|q: int| 0 <= q < j && old_result.take(j as int)[q] == xj;
                                    assert(old_result[q] == old_result[j as int]);
                                }
                            }
                        }
                        assert forall|x: Seq<char>| #[trigger] views(kept@).contains(x) <==> (old_result.take(j + 1).contains(x)
                            && views(list@).contains(x)) by {
                            lemma_push_contains(old_result.take(j as int), xj, x);
                            if keep_it {
                                lemma_push_contains(before, xj, x);
                            }
                        }
                        j = j + 1;
                    }
                    assert(old_result.take(j as int) =~= old_result);
                    result = kept;
                    assert forall|x: Seq<char>| #[trigger] views(result@).contains(x) <==> (forall|m: int|
                        0 <= m < k + 1 ==> #[trigger] postings(self@, tv[m]).contains(x)) by {
                        assert(postings(self@, tv[k as int]) == views(list@).to_set());
                        if views(result@).contains(x) {
                            assert(old_result.contains(x));
                            assert forall|m: int| 0 <= m < k + 1 implies #[trigger] postings(self@, tv[m]).contains(x) by {
                                if m < k {
                                }
                            }
                        }
                        if forall|m: int| 0 <= m < k + 1 ==> #[trigger] postings(self@, tv[m]).contains(x) {
                            assert(postings(self@, tv[k as int]).contains(x));
                            assert(old_result.contains(x));
                        }
                    }
                },
            }
            k = k + 1;
        }
        assert(views(result@).to_set() =~= target);
        result
    }
}

} // verus!

verus! {

/// After a document is indexed with the tokens `toks`, a search whose
/// tokens are all among them finds it.
pub proof fn lemma_indexed_document_found(
    before: Seq<(Seq<char>, Seq<Seq<char>>)>,
    after: Seq<(Seq<char>, Seq<Seq<char>>)>,
    id: Seq<char>,
    toks: Seq<Seq<char>>,
    query: Seq<char>,
)
    requires
        forall|t: Seq<char>|
            #[trigger] postings(after, t) == if toks.contains(t) {
                postings(before, t).insert(id)
            } else {
                postings(before, t)
            },
        tokens(query).len() > 0,
        forall|i: int| 0 <= i < tokens(query).len() ==> toks.contains(#[trigger] tokens(query)[i]),
    ensures
        search_result(after, query).contains(id),
{
    let ts = tokens(query);
    assert forall|i: int| 0 <= i < ts.len() implies #[trigger] postings(after, ts[i]).contains(id) by {
        assert(toks.contains(ts[i]));
    }
}

/// After a document is taken out of the index with the tokens `toks`, a
/// search with any of them does not find it.
pub proof fn lemma_removed_document_not_found(
    before: Seq<(Seq<char>, Seq<Seq<char>>)>,
    after: Seq<(Seq<char>, Seq<Seq<char>>)>,
    id: Seq<char>,
    toks: Seq<Seq<char>>,
    query: Seq<char>,
    i: int,
)
    requires
        forall|t: Seq<char>|
            #[trigger] postings(after, t) == if toks.contains(t) {
                postings(before, t).remove(id)
            } else {
                postings(before, t)
            },
        0 <= i < tokens(query).len(),
        toks.contains(tokens(query)[i]),
    ensures
        !search_result(after, query).contains(id),
{
    assert(!postings(after, tokens(query)[i]).contains(id));
}

} // verus!

verus! {

/// Every piece of `split_words(s)` is made of alphanumeric characters.
proof fn lemma_split_words_alphanumeric(s: Seq<char>)
    ensures
        forall|k: int, j: int|
            0 <= k < split_words(s).len() && 0 <= j < split_words(s)[k].len() ==> alphanumeric(
                #[trigger] split_words(s)[k][j],
            ),
    decreases s.len(),
{
    lemma_split_words_nonempty(s);
    if s.len() > 0 {
        let init = split_words(s.drop_last());
        lemma_split_words_alphanumeric(s.drop_last());
        lemma_split_words_nonempty(s.drop_last());
        let r = split_words(s);
        assert forall|k: int, j: int| 0 <= k < r.len() && 0 <= j < r[k].len() implies alphanumeric(
            #[trigger] r[k][j],
        ) by {
            if k < init.len() - 1 || (k == init.len() - 1 && !alphanumeric(s.last())) {
                assert(r[k] == init[k]);
                assert(alphanumeric(init[k][j]));
            } else if k == init.len() - 1 {
                assert(r[k] == init.last().push(s.last()));
                if j < init.last().len() {
                    assert(alphanumeric(init[k][j]));
                }
            }
        }
    }
}

/// The last piece of `split_words(p)` is the alphanumeric run that ends `p`:
/// given a start `i` after a character that is not alphanumeric (or at 0),
/// with only alphanumeric characters from `i` on.
proof fn lemma_split_words_last(p: Seq<char>, i: int)
    requires
        0 <= i <= p.len(),
        i == 0 || !alphanumeric(p[i - 1]),
        forall|k: int| i <= k < p.len() ==> alphanumeric(#[trigger] p[k]),
    ensures
        split_words(p).len() >= 1,
        split_words(p).last() == p.subrange(i, p.len() as int),
    decreases p.len(),
{
    lemma_split_words_nonempty(p);
    if p.len() > 0 {
        lemma_split_words_nonempty(p.drop_last());
        if p.len() == i {
            assert(!alphanumeric(p.last()));
            assert(p.subrange(i, p.len() as int) =~= Seq::<char>::empty());
        } else {
            lemma_split_words_last(p.drop_last(), i);
            assert(alphanumeric(p.last()));
            assert(p.drop_last().subrange(i, p.len() - 1).push(p.last()) =~= p.subrange(i, p.len() as int));
        }
    } else {
        assert(p.subrange(i, p.len() as int) =~= Seq::<char>::empty());
    }
}

/// A piece of `split_words(q)` before the last stays, at its place, when
/// more text follows.
proof fn lemma_split_words_stable(q: Seq<char>, r: Seq<char>, k: int)
    requires
        0 <= k < split_words(q).len() - 1,
    ensures
        k < split_words(q + r).len() - 1,
        split_words(q + r)[k] == split_words(q)[k],
    decreases r.len(),
{
    if r.len() > 0 {
        lemma_split_words_stable(q, r.drop_last(), k);
        let p = q + r;
        assert(p.drop_last() =~= q + r.drop_last());
        lemma_split_words_nonempty(p.drop_last());
    } else {
        assert(q + r =~= q);
    }
}

/// Whether `l[i..j]` is a maximal run of alphanumeric characters: not
/// empty, every character alphanumeric, and neither neighbour alphanumeric.
pub open spec fn maximal_run(l: Seq<char>, i: int, j: int) -> bool {
    &&& 0 <= i < j <= l.len()
    &&& i == 0 || !alphanumeric(l[i - 1])
    &&& j == l.len() || !alphanumeric(l[j])
    &&& forall|m: int| i <= m < j ==> alphanumeric(#[trigger] l[m])
}

/// Where a piece of `split_words(p)` lies in `p`: a run of alphanumeric
/// characters after a character that is not (or at 0); a piece before the
/// last ends at a character that is not alphanumeric, the last at the end.
proof fn lemma_piece_position(p: Seq<char>, k: int) -> (ab: (int, int))
    requires
        0 <= k < split_words(p).len(),
    ensures
        0 <= ab.0 <= ab.1 <= p.len(),
        p.subrange(ab.0, ab.1) == split_words(p)[k],
        ab.0 == 0 || !alphanumeric(p[ab.0 - 1]),
        forall|m: int| ab.0 <= m < ab.1 ==> alphanumeric(#[trigger] p[m]),
        k < split_words(p).len() - 1 ==> ab.1 < p.len() && !alphanumeric(p[ab.1]),
        k == split_words(p).len() - 1 ==> ab.1 == p.len(),
    decreases p.len(),
{
    lemma_split_words_nonempty(p);
    if p.len() == 0 {
        assert(p.subrange(0, 0) =~= Seq::<char>::empty());
        (0, 0)
    } else {
        let dl = p.drop_last();
        let init = split_words(dl);
        lemma_split_words_nonempty(dl);
        if !alphanumeric(p.last()) {
            if k == init.len() {
                assert(p.subrange(p.len() as int, p.len() as int) =~= Seq::<char>::empty());
                (p.len() as int, p.len() as int)
            } else {
                let ab = lemma_piece_position(dl, k);
                assert(p.subrange(ab.0, ab.1) =~= dl.subrange(ab.0, ab.1));
                assert forall|m: int| ab.0 <= m < ab.1 implies alphanumeric(#[trigger] p[m]) by {
                    assert(p[m] == dl[m]);
                }
                ab
            }
        } else {
            let ab = lemma_piece_position(dl, k);
            if k < init.len() - 1 {
                assert(p.subrange(ab.0, ab.1) =~= dl.subrange(ab.0, ab.1));
                assert forall|m: int| ab.0 <= m < ab.1 implies alphanumeric(#[trigger] p[m]) by {
                    assert(p[m] == dl[m]);
                }
                ab
            } else {
                assert(p.subrange(ab.0, p.len() as int) =~= dl.subrange(ab.0, ab.1).push(p.last()));
                assert forall|m: int| ab.0 <= m < p.len() implies alphanumeric(#[trigger] p[m]) by {
                    if m < dl.len() {
                        assert(p[m] == dl[m]);
                    }
                }
                (ab.0, p.len() as int)
            }
        }
    }
}

/// Tokenizing gives exactly the words: the tokens of a text are the maximal
/// runs of alphanumeric characters of its lowercase form.  Every token is
/// such a run (so no token holds punctuation or white space, and none is
/// empty), and every such run is a token.
pub proof fn lemma_tokens_are_alphanumeric_runs(text: Seq<char>, i: int, j: int)
    ensures
        forall|k: int|
            0 <= k < tokens(text).len() ==> exists|a: int, b: int|
                maximal_run(lowercase(text), a, b) && #[trigger] tokens(text)[k] == lowercase(text).subrange(a, b),
        forall|k: int, c: int|
            0 <= k < tokens(text).len() && 0 <= c < tokens(text)[k].len() ==> alphanumeric(
                #[trigger] tokens(text)[k][c],
            ),
        maximal_run(lowercase(text), i, j) ==> tokens(text).contains(lowercase(text).subrange(i, j)),
{
    let l = lowercase(text);
    let sw = split_words(l);
    lemma_split_words_alphanumeric(l);
    assert forall|k: int| 0 <= k < tokens(text).len() implies exists|a: int, b: int|
        maximal_run(l, a, b) && #[trigger] tokens(text)[k] == l.subrange(a, b) by {
        let w = tokens(text)[k];
        assert(tokens(text).contains(w));
        crate::seqs::lemma_keep_contains(sw, nonempty(), w);
        let m = choose|m: int| 0 <= m < sw.len() && sw[m] == w;
        let ab = lemma_piece_position(l, m);
        assert(w.len() > 0);
        assert(maximal_run(l, ab.0, ab.1));
    }
    assert forall|k: int, c: int| 0 <= k < tokens(text).len() && 0 <= c < tokens(text)[k].len() implies alphanumeric(
        #[trigger] tokens(text)[k][c],
    ) by {
        let w = tokens(text)[k];
        assert(tokens(text).contains(w));
        crate::seqs::lemma_keep_contains(sw, nonempty(), w);
        let m = choose|m: int| 0 <= m < sw.len() && sw[m] == w;
        assert(alphanumeric(sw[m][c]));
    }
    if maximal_run(l, i, j) {
        let run = l.subrange(i, j);
        let pj = l.take(j);
        lemma_split_words_last(pj, i);
        assert(pj.subrange(i, j) =~= run);
        if j == l.len() {
            assert(pj =~= l);
            assert(sw.contains(sw[sw.len() - 1]));
        } else {
            let pj1 = l.take(j + 1);
            assert(pj1.drop_last() =~= pj);
            assert(!alphanumeric(pj1.last()));
            let m = split_words(pj).len() - 1;
            assert(split_words(pj1)[m] == run);
            lemma_split_words_stable(pj1, l.skip(j + 1), m);
            assert(pj1 + l.skip(j + 1) =~= l);
            assert(sw[m] == run);
            assert(sw.contains(sw[m]));
        }
        crate::seqs::lemma_keep_contains(sw, nonempty(), run);
    }
}

} // verus!
