//! Association lists keyed by strings: the model of the small maps that the
//! cluster keeps per peer, and of the shard table.
//!
//! A list is read front to back and the first entry with a key wins; the
//! operations here never create a second entry for a key.
use vstd::prelude::*;

verus! {

/// The value of the first entry whose key is `k`.
pub open spec fn assoc_get<V>(s: Seq<(Seq<char>, V)>, k: Seq<char>) -> Option<V>
    decreases s.len(),
{
    if s.len() == 0 {
        None
    } else if s[0].0 == k {
        Some(s[0].1)
    } else {
        assoc_get(s.drop_first(), k)
    }
}

/// Sets the value of `k`: the first entry with key `k` is replaced in place,
/// or, when there is none, `(k, v)` is appended.
pub open spec fn assoc_insert<V>(s: Seq<(Seq<char>, V)>, k: Seq<char>, v: V) -> Seq<(Seq<char>, V)>
    decreases s.len(),
{
    if s.len() == 0 {
        seq![(k, v)]
    } else if s[0].0 == k {
        s.update(0, (k, v))
    } else {
        seq![s[0]] + assoc_insert(s.drop_first(), k, v)
    }
}

/// Drops every entry whose key is `k`, keeping the others in order.
pub open spec fn assoc_remove<V>(s: Seq<(Seq<char>, V)>, k: Seq<char>) -> Seq<(Seq<char>, V)>
    decreases s.len(),
{
    if s.len() == 0 {
        s
    } else if s.last().0 == k {
        assoc_remove(s.drop_last(), k)
    } else {
        assoc_remove(s.drop_last(), k).push(s.last())
    }
}

/// The keys, in order.
pub open spec fn assoc_keys<V>(s: Seq<(Seq<char>, V)>) -> Seq<Seq<char>> {
    s.map_values(|e: (Seq<char>, V)| e.0)
}

/// The values, in order.
pub open spec fn assoc_values<V>(s: Seq<(Seq<char>, V)>) -> Seq<V> {
    s.map_values(|e: (Seq<char>, V)| e.1)
}

pub proof fn lemma_get_skip<V>(s: Seq<(Seq<char>, V)>, k: Seq<char>, i: int)
    requires
        0 <= i <= s.len(),
        forall|j: int| 0 <= j < i ==> s[j].0 != k,
    ensures
        assoc_get(s, k) == assoc_get(s.subrange(i, s.len() as int), k),
    decreases i,
{
    if i > 0 {
        assert(s.drop_first().subrange(i - 1, s.len() - 1) =~= s.subrange(i, s.len() as int));
        lemma_get_skip(s.drop_first(), k, i - 1);
    } else {
        assert(s.subrange(0, s.len() as int) =~= s);
    }
}

pub proof fn lemma_get_at<V>(s: Seq<(Seq<char>, V)>, k: Seq<char>, i: int)
    requires
        0 <= i < s.len(),
        s[i].0 == k,
        forall|j: int| 0 <= j < i ==> s[j].0 != k,
    ensures
        assoc_get(s, k) == Some(s[i].1),
{
    lemma_get_skip(s, k, i);
    assert(s.subrange(i, s.len() as int)[0] == s[i]);
}

pub proof fn lemma_get_absent<V>(s: Seq<(Seq<char>, V)>, k: Seq<char>)
    requires
        forall|j: int| 0 <= j < s.len() ==> s[j].0 != k,
    ensures
        assoc_get(s, k) is None,
{
    lemma_get_skip(s, k, s.len() as int);
}

pub proof fn lemma_insert_at<V>(s: Seq<(Seq<char>, V)>, k: Seq<char>, v: V, i: int)
    requires
        0 <= i < s.len(),
        s[i].0 == k,
        forall|j: int| 0 <= j < i ==> s[j].0 != k,
    ensures
        assoc_insert(s, k, v) == s.update(i, (k, v)),
    decreases i,
{
    if i > 0 {
        lemma_insert_at(s.drop_first(), k, v, i - 1);
        assert(seq![s[0]] + s.drop_first().update(i - 1, (k, v)) =~= s.update(i, (k, v)));
    }
}

pub proof fn lemma_insert_absent<V>(s: Seq<(Seq<char>, V)>, k: Seq<char>, v: V)
    requires
        forall|j: int| 0 <= j < s.len() ==> s[j].0 != k,
    ensures
        assoc_insert(s, k, v) == s.push((k, v)),
    decreases s.len(),
{
    if s.len() > 0 {
        lemma_insert_absent(s.drop_first(), k, v);
        assert(seq![s[0]] + s.drop_first().push((k, v)) =~= s.push((k, v)));
    }
}

pub proof fn lemma_remove_step<V>(s: Seq<(Seq<char>, V)>, k: Seq<char>, i: int)
    requires
        0 <= i < s.len(),
    ensures
        assoc_remove(s.subrange(0, i + 1), k) == if s[i].0 == k {
            assoc_remove(s.subrange(0, i), k)
        } else {
            assoc_remove(s.subrange(0, i), k).push(s[i])
        },
{
    let t = s.subrange(0, i + 1);
    assert(t.drop_last() =~= s.subrange(0, i));
    assert(t.last() == s[i]);
}

} // verus!

verus! {

/// Inserts into a list kept in ascending key order: an entry with key `k` is
/// replaced in place, otherwise `(k, v)` goes before the first larger key.
pub open spec fn sorted_insert<V>(s: Seq<(Seq<char>, V)>, k: Seq<char>, v: V) -> Seq<(Seq<char>, V)>
    decreases s.len(),
{
    if s.len() == 0 {
        seq![(k, v)]
    } else if s[0].0 == k {
        s.update(0, (k, v))
    } else if crate::text::lex_lt(k, s[0].0) {
        seq![(k, v)] + s
    } else {
        seq![s[0]] + sorted_insert(s.drop_first(), k, v)
    }
}

/// Keys strictly ascending.
pub open spec fn keys_sorted<V>(s: Seq<(Seq<char>, V)>) -> bool {
    forall|i: int, j: int| 0 <= i < j < s.len() ==> crate::text::lex_lt(#[trigger] s[i].0, #[trigger] s[j].0)
}

pub proof fn lemma_sorted_insert_at<V>(s: Seq<(Seq<char>, V)>, k: Seq<char>, v: V, i: int)
    requires
        0 <= i <= s.len(),
        forall|j: int| 0 <= j < i ==> crate::text::lex_lt(#[trigger] s[j].0, k),
        i < s.len() ==> !crate::text::lex_lt(s[i].0, k),
    ensures
        sorted_insert(s, k, v) == if i < s.len() && s[i].0 == k {
            s.update(i, (k, v))
        } else {
            s.insert(i, (k, v))
        },
    decreases i,
{
    if i > 0 {
        crate::text::lemma_lex_asymmetric(s[0].0, k);
        lemma_sorted_insert_at(s.drop_first(), k, v, i - 1);
        if i < s.len() && s[i].0 == k {
            assert(seq![s[0]] + s.drop_first().update(i - 1, (k, v)) =~= s.update(i, (k, v)));
        } else {
            assert(seq![s[0]] + s.drop_first().insert(i - 1, (k, v)) =~= s.insert(i, (k, v)));
        }
    } else if s.len() > 0 && s[0].0 != k {
        crate::text::lemma_lex_total(s[0].0, k);
        assert(seq![(k, v)] + s =~= s.insert(0, (k, v)));
    } else if s.len() == 0 {
        assert(seq![(k, v)] =~= s.insert(0, (k, v)));
    }
}

} // verus!

verus! {

/// A small table from node IDs to plain values, kept as an association list.
#[derive(Debug)]
pub struct KeyedTable<V: Copy> {
    entries: Vec<(String, V)>,
}

impl<V: Copy> KeyedTable<V> {
    /// The entries, keys as characters, in order.
    pub closed spec fn spec_entries(&self) -> Seq<(Seq<char>, V)> {
        self.entries@.map_values(|e: (String, V)| (e.0@, e.1))
    }
}

impl<V: Copy> View for KeyedTable<V> {
    type V = Seq<(Seq<char>, V)>;

    open spec fn view(&self) -> Seq<(Seq<char>, V)> {
        self.spec_entries()
    }
}

impl<V: Copy> KeyedTable<V> {
    /// An empty table.
    pub fn new() -> (r: Self)
        ensures
            r@ == Seq::<(Seq<char>, V)>::empty(),
    {
        let r = KeyedTable { entries: Vec::new() };
        assert(r@ =~= Seq::<(Seq<char>, V)>::empty());
        r
    }

    /// Number of entries.
    pub fn len(&self) -> (r: usize)
        ensures
            r == self@.len(),
    {
        self.entries.len()
    }

    fn find(&self, key: &str) -> (r: Option<usize>)
        ensures
            match r {
                Some(i) => i < self@.len() && self@[i as int].0 == key@ && forall|j: int|
                    0 <= j < i ==> #[trigger] self@[j].0 != key@,
                None => forall|j: int| 0 <= j < self@.len() ==> #[trigger] self@[j].0 != key@,
            },
    {
        let mut i: usize = 0;
        while i < self.entries.len()
            invariant
                i <= self.entries.len(),
                self@.len() == self.entries@.len(),
                forall|j: int| 0 <= j < i ==> #[trigger] self@[j].0 != key@,
            decreases self.entries.len() - i,
        {
            assert(self@[i as int].0 == self.entries@[i as int].0@);
            if crate::text::str_eq(self.entries[i].0.as_str(), key) {
                return Some(i);
            }
            i = i + 1;
        }
        None
    }

    /// The value recorded for `key`.
    pub fn get(&self, key: &str) -> (r: Option<V>)
        ensures
            r == assoc_get(self@, key@),
    {
        match self.find(key) {
            Some(i) => {
                proof {
                    lemma_get_at(self@, key@, i as int);
                }
                assert(self@[i as int].1 == self.entries@[i as int].1);
                Some(self.entries[i].1)
            },
            None => {
                proof {
                    lemma_get_absent(self@, key@);
                }
                None
            },
        }
    }

    /// Whether `key` has an entry.
    pub fn contains_key(&self, key: &str) -> (r: bool)
        ensures
            r == (assoc_get(self@, key@) is Some),
    {
        self.get(key).is_some()
    }

    /// Records `value` for `key`.
    pub fn insert(&mut self, key: String, value: V)
        ensures
            final(self)@ == assoc_insert(old(self)@, key@, value),
    {
        match self.find(key.as_str()) {
            Some(i) => {
                proof {
                    lemma_insert_at(old(self)@, key@, value, i as int);
                }
                self.entries.set(i, (key, value));
                assert(self@ =~= old(self)@.update(i as int, (key@, value)));
            },
            None => {
                proof {
                    lemma_insert_absent(old(self)@, key@, value);
                }
                self.entries.push((key, value));
                assert(self@ =~= old(self)@.push((key@, value)));
            },
        }
    }

    /// Forgets `key`.
    pub fn remove(&mut self, key: &str)
        ensures
            final(self)@ == assoc_remove(old(self)@, key@),
    {
        let mut out: Vec<(String, V)> = Vec::new();
        let ghost s = self@;
        let n = self.entries.len();
        let mut i: usize = 0;
        while i < n
            invariant
                n == self.entries.len(),
                s == self@,
                s.len() == n,
                i <= n,
                out@.map_values(|e: (String, V)| (e.0@, e.1)) == assoc_remove(
                    s.subrange(0, i as int),
                    key@,
                ),
            decreases n - i,
        {
            proof {
                lemma_remove_step(s, key@, i as int);
            }
            assert(s[i as int] == (self.entries@[i as int].0@, self.entries@[i as int].1));
            if !crate::text::str_eq(self.entries[i].0.as_str(), key) {
                let k = self.entries[i].0.clone();
                let ghost before = out@;
                out.push((k, self.entries[i].1));
                assert(out@.map_values(|e: (String, V)| (e.0@, e.1)) =~= before.map_values(
                    |e: (String, V)| (e.0@, e.1),
                ).push(s[i as int]));
            }
            i = i + 1;
        }
        assert(s.subrange(0, n as int) =~= s);
        self.entries = out;
    }

    /// The values, in table order.
    pub fn values(&self) -> (r: Vec<V>)
        ensures
            r@ == assoc_values(self@),
    {
        let mut out: Vec<V> = Vec::new();
        let mut i: usize = 0;
        while i < self.entries.len()
            invariant
                i <= self.entries.len(),
                out@ == assoc_values(self@).subrange(0, i as int),
            decreases self.entries.len() - i,
        {
            assert(self@[i as int] == (self.entries@[i as int].0@, self.entries@[i as int].1));
            out.push(self.entries[i].1);
            i = i + 1;
            assert(out@ =~= assoc_values(self@).subrange(0, i as int));
        }
        assert(assoc_values(self@).subrange(0, i as int) =~= assoc_values(self@));
        out
    }

    /// A copy of the entries, in table order.
    pub fn to_vec(&self) -> (r: Vec<(String, V)>)
        ensures
            r@.map_values(|e: (String, V)| (e.0@, e.1)) == self@,
    {
        let mut out: Vec<(String, V)> = Vec::new();
        let mut i: usize = 0;
        while i < self.entries.len()
            invariant
                i <= self.entries.len(),
                out@.map_values(|e: (String, V)| (e.0@, e.1)) == self@.subrange(0, i as int),
            decreases self.entries.len() - i,
        {
            assert(self@[i as int] == (self.entries@[i as int].0@, self.entries@[i as int].1));
            let k = self.entries[i].0.clone();
            let ghost before = out@;
            out.push((k, self.entries[i].1));
            assert(out@.map_values(|e: (String, V)| (e.0@, e.1)) =~= before.map_values(
                |e: (String, V)| (e.0@, e.1),
            ).push(self@[i as int]));
            i = i + 1;
            assert(self@.subrange(0, i as int) =~= self@.subrange(0, i - 1).push(self@[i - 1]));
        }
        assert(self@.subrange(0, i as int) =~= self@);
        out
    }
}

} // verus!

verus! {

/// Sets `v` for every key of `keys`, in order.
pub open spec fn assoc_insert_all<V>(m: Seq<(Seq<char>, V)>, keys: Seq<Seq<char>>, v: V) -> Seq<(Seq<char>, V)>
    decreases keys.len(),
{
    if keys.len() == 0 {
        m
    } else {
        assoc_insert(assoc_insert_all(m, keys.drop_last(), v), keys.last(), v)
    }
}

/// The list with `f` applied to every value.
pub open spec fn assoc_map<V, W>(s: Seq<(Seq<char>, V)>, f: spec_fn(V) -> W) -> Seq<(Seq<char>, W)> {
    s.map_values(|e: (Seq<char>, V)| (e.0, f(e.1)))
}

/// Mapping the values commutes with setting one.
pub proof fn lemma_map_insert<V, W>(s: Seq<(Seq<char>, V)>, k: Seq<char>, v: V, f: spec_fn(V) -> W)
    ensures
        assoc_map(assoc_insert(s, k, v), f) == assoc_insert(assoc_map(s, f), k, f(v)),
    decreases s.len(),
{
    let ms = assoc_map(s, f);
    if s.len() == 0 {
        assert(assoc_map(seq![(k, v)], f) =~= seq![(k, f(v))]);
    } else if s[0].0 == k {
        assert(assoc_map(s.update(0, (k, v)), f) =~= ms.update(0, (k, f(v))));
    } else {
        lemma_map_insert(s.drop_first(), k, v, f);
        assert(ms.drop_first() =~= assoc_map(s.drop_first(), f));
        assert(assoc_map(seq![s[0]] + assoc_insert(s.drop_first(), k, v), f) =~= seq![ms[0]] + assoc_map(
            assoc_insert(s.drop_first(), k, v),
            f,
        ));
    }
}

} // verus!

verus! {

/// Replacing the value of entry `i` changes what its key gives, when that
/// entry is the first with its key.
pub proof fn lemma_get_update_value<V>(s: Seq<(Seq<char>, V)>, i: int, v: V, t: Seq<char>)
    requires
        0 <= i < s.len(),
        forall|j: int| 0 <= j < i ==> s[j].0 != s[i].0,
    ensures
        assoc_get(s.update(i, (s[i].0, v)), t) == if t == s[i].0 { Some(v) } else { assoc_get(s, t) },
    decreases i,
{
    let u = s.update(i, (s[i].0, v));
    if i > 0 {
        assert(u[0] == s[0]);
        if s[0].0 != t {
            lemma_get_update_value(s.drop_first(), i - 1, v, t);
            assert(u.drop_first() =~= s.drop_first().update(i - 1, (s[i].0, v)));
        }
    } else {
        assert(u.drop_first() =~= s.drop_first());
    }
}

/// Appending an entry only adds its key, when the key is new.
pub proof fn lemma_get_push<V>(s: Seq<(Seq<char>, V)>, k: Seq<char>, v: V, t: Seq<char>)
    ensures
        assoc_get(s.push((k, v)), t) == match assoc_get(s, t) {
            Some(x) => Some(x),
            None => if t == k { Some(v) } else { None },
        },
    decreases s.len(),
{
    if s.len() > 0 {
        assert(s.push((k, v))[0] == s[0]);
        if s[0].0 != t {
            lemma_get_push(s.drop_first(), k, v, t);
            assert(s.push((k, v)).drop_first() =~= s.drop_first().push((k, v)));
        }
    } else {
        assert(s.push((k, v)).drop_first() =~= Seq::<(Seq<char>, V)>::empty());
        assert(assoc_get(Seq::<(Seq<char>, V)>::empty(), t) is None);
        assert(s.push((k, v))[0] == (k, v));
    }
}

/// Removing the only entry with a key forgets that key and nothing else.
pub proof fn lemma_get_remove_at<V>(s: Seq<(Seq<char>, V)>, i: int, t: Seq<char>)
    requires
        0 <= i < s.len(),
        forall|j: int| 0 <= j < s.len() && j != i ==> s[j].0 != s[i].0,
    ensures
        assoc_get(s.remove(i), t) == if t == s[i].0 { None } else { assoc_get(s, t) },
    decreases i,
{
    if i > 0 {
        if s[0].0 != t {
            assert forall|j: int| 0 <= j < s.drop_first().len() && j != i - 1 implies (#[trigger] s.drop_first()[j]).0
                != s.drop_first()[i - 1].0 by {
                assert(s.drop_first()[j] == s[j + 1]);
            }
            lemma_get_remove_at(s.drop_first(), i - 1, t);
            assert(s.remove(i).drop_first() =~= s.drop_first().remove(i - 1));
        } else {
            assert(s.remove(i)[0] == s[0]);
        }
    } else {
        assert(s.remove(0) =~= s.drop_first());
        if t == s[0].0 {
            lemma_get_absent(s.drop_first(), t);
        }
    }
}

} // verus!

verus! {

/// What a key gives comes from an entry with that key.
pub proof fn lemma_get_some_key<V>(s: Seq<(Seq<char>, V)>, k: Seq<char>)
    ensures
        assoc_get(s, k) matches Some(v) ==> exists|i: int| 0 <= i < s.len() && s[i] == (k, v),
    decreases s.len(),
{
    if s.len() > 0 && s[0].0 != k {
        lemma_get_some_key(s.drop_first(), k);
        if let Some(v) = assoc_get(s, k) {
            let i = choose|i: int| 0 <= i < s.drop_first().len() && s.drop_first()[i] == (k, v);
            assert(s[i + 1] == (k, v));
        }
    } else if s.len() > 0 {
        assert(s[0] == (k, s[0].1));
    }
}


/// After a sorted insert of `k`, `k` reads as `v` and every other key as before.
pub proof fn lemma_get_sorted_insert<V>(s: Seq<(Seq<char>, V)>, k: Seq<char>, v: V, t: Seq<char>)
    ensures
        assoc_get(sorted_insert(s, k, v), t) == if t == k { Some(v) } else { assoc_get(s, t) },
    decreases s.len(),
{
    let r = sorted_insert(s, k, v);
    if s.len() == 0 {
        assert(r == seq![(k, v)]);
        assert(r.drop_first() =~= Seq::<(Seq<char>, V)>::empty());
        assert(assoc_get(r, t) == if t == k { Some(v) } else { assoc_get(s, t) });
    } else if s[0].0 == k {
        assert(r == s.update(0, (k, v)));
        assert(r[0] == (k, v));
        assert(r.drop_first() =~= s.drop_first());
        assert(assoc_get(r, t) == if t == k { Some(v) } else { assoc_get(s, t) });
    } else if crate::text::lex_lt(k, s[0].0) {
        assert(r == seq![(k, v)] + s);
        assert(r[0] == (k, v));
        assert(r.drop_first() =~= s);
        assert(assoc_get(r, t) == if t == k { Some(v) } else { assoc_get(s, t) });
    } else {
        lemma_get_sorted_insert(s.drop_first(), k, v, t);
        assert(r == seq![s[0]] + sorted_insert(s.drop_first(), k, v));
        assert(r[0] == s[0]);
        assert(r.drop_first() =~= sorted_insert(s.drop_first(), k, v));
        if t == s[0].0 {
            assert(assoc_get(r, t) == Some(s[0].1));
            assert(assoc_get(s, t) == Some(s[0].1));
        } else {
            assert(assoc_get(r, t) == assoc_get(sorted_insert(s.drop_first(), k, v), t));
            assert(assoc_get(s, t) == assoc_get(s.drop_first(), t));
        }
        assert(assoc_get(r, t) == if t == k { Some(v) } else { assoc_get(s, t) });
    }
}

/// After removing `k`, `k` reads as absent and every other key as before.
pub proof fn lemma_get_remove<V>(s: Seq<(Seq<char>, V)>, k: Seq<char>, t: Seq<char>)
    ensures
        assoc_get(assoc_remove(s, k), t) == if t == k { None } else { assoc_get(s, t) },
    decreases s.len(),
{
    if s.len() > 0 {
        let dl = s.drop_last();
        let last = s.last();
        lemma_get_remove(dl, k, t);
        assert(dl.push(last) =~= s);
        lemma_get_push(dl, last.0, last.1, t);
        if last.0 != k {
            lemma_get_push(assoc_remove(dl, k), last.0, last.1, t);
        }
    }
}

} // verus!
