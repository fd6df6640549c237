//! JSON values as the library reads them.
//!
//! Numbers are kept as the text that serde_json writes for them; objects
//! keep their fields in order.
use vstd::prelude::*;

verus! {

/// A JSON value.
#[derive(Debug)]
pub enum JsonValue {
    Null,
    Bool(bool),
    /// A number, as serde_json writes it.
    Number(String),
    String(String),
    Array(Vec<JsonValue>),
    Object(Vec<(String, JsonValue)>),
}

/// The strings of a JSON value, depth first, fields and items in order.
pub open spec fn json_strings(v: JsonValue) -> Seq<Seq<char>>
    decreases v,
{
    match v {
        JsonValue::String(s) => seq![s@],
        JsonValue::Array(items) => items_strings(items@, items@.len() as int),
        JsonValue::Object(fields) => fields_strings(fields@, fields@.len() as int),
        _ => Seq::empty(),
    }
}

/// The strings of the first `n` items.
pub open spec fn items_strings(items: Seq<JsonValue>, n: int) -> Seq<Seq<char>>
    decreases items, n,
{
    if n <= 0 || n > items.len() {
        Seq::empty()
    } else {
        items_strings(items, n - 1) + json_strings(items[n - 1])
    }
}

/// The strings of the values of the first `n` fields.
pub open spec fn fields_strings(fields: Seq<(String, JsonValue)>, n: int) -> Seq<Seq<char>>
    decreases fields, n,
{
    if n <= 0 || n > fields.len() {
        Seq::empty()
    } else {
        fields_strings(fields, n - 1) + json_strings(fields[n - 1].1)
    }
}

} // verus!

verus! {

/// Appends the strings of `v` (see `json_strings`) to `out`.
pub fn collect_strings(v: &JsonValue, out: &mut Vec<String>)
    ensures
        crate::text::views(final(out)@) == crate::text::views(old(out)@) + json_strings(*v),
    decreases v,
{
    match v {
        JsonValue::String(s) => {
            let ghost before = crate::text::views(out@);
            out.push(s.clone());
            assert(crate::text::views(out@) =~= before + seq![s@]);
        },
        JsonValue::Array(items) => {
            let mut i: usize = 0;
            assert(crate::text::views(out@) =~= crate::text::views(old(out)@) + items_strings(items@, 0));
            while i < items.len()
                invariant
                    i <= items@.len(),
                    crate::text::views(out@) == crate::text::views(old(out)@) + items_strings(items@, i as int),
                    *v == JsonValue::Array(*items),
                decreases items.len() - i,
            {
                proof {
                    assert(decreases_to!(*v => (*v)->Array_0));
                    assert((*v)->Array_0 == *items);
                    assert(decreases_to!(*items => items@));
                    assert(decreases_to!(items@ => items@[i as int]));
                }
                collect_strings(&items[i], out);
                i = i + 1;
                assert(crate::text::views(old(out)@) + items_strings(items@, i as int) =~= crate::text::views(
                    old(out)@,
                ) + items_strings(items@, i - 1) + json_strings(items@[i - 1]));
            }
            assert(json_strings(*v) == items_strings(items@, items@.len() as int));
        },
        JsonValue::Object(fields) => {
            let mut i: usize = 0;
            assert(crate::text::views(out@) =~= crate::text::views(old(out)@) + fields_strings(fields@, 0));
            while i < fields.len()
                invariant
                    i <= fields@.len(),
                    crate::text::views(out@) == crate::text::views(old(out)@) + fields_strings(fields@, i as int),
                    *v == JsonValue::Object(*fields),
                decreases fields.len() - i,
            {
                proof {
                    assert(decreases_to!(*v => (*v)->Object_0));
                    assert((*v)->Object_0 == *fields);
                    assert(decreases_to!(*fields => fields@));
                    assert(decreases_to!(fields@ => fields@[i as int]));
                    assert(decreases_to!(fields@[i as int] => fields@[i as int].1));
                }
                collect_strings(&fields[i].1, out);
                i = i + 1;
                assert(crate::text::views(old(out)@) + fields_strings(fields@, i as int) =~= crate::text::views(
                    old(out)@,
                ) + fields_strings(fields@, i - 1) + json_strings(fields@[i - 1].1));
            }
            assert(json_strings(*v) == fields_strings(fields@, fields@.len() as int));
        },
        _ => {
            assert(crate::text::views(out@) =~= crate::text::views(old(out)@) + json_strings(*v));
        },
    }
}

} // verus!

verus! {

/// A JSON value as plain data.
pub enum Json {
    Null,
    Bool(bool),
    Number(Seq<char>),
    Str(Seq<char>),
    Array(Seq<Json>),
    Object(Seq<(Seq<char>, Json)>),
}

/// The plain value of a JSON value.
pub open spec fn json_view(v: JsonValue) -> Json
    decreases v,
{
    match v {
        JsonValue::Null => Json::Null,
        JsonValue::Bool(b) => Json::Bool(b),
        JsonValue::Number(n) => Json::Number(n@),
        JsonValue::String(s) => Json::Str(s@),
        JsonValue::Array(items) => Json::Array(items_view(items@, items@.len() as int)),
        JsonValue::Object(fields) => Json::Object(fields_view(fields@, fields@.len() as int)),
    }
}

/// The plain values of the first `n` items.
pub open spec fn items_view(items: Seq<JsonValue>, n: int) -> Seq<Json>
    decreases items, n,
{
    if n <= 0 || n > items.len() {
        Seq::empty()
    } else {
        items_view(items, n - 1).push(json_view(items[n - 1]))
    }
}

/// The plain values of the first `n` fields.
pub open spec fn fields_view(fields: Seq<(String, JsonValue)>, n: int) -> Seq<(Seq<char>, Json)>
    decreases fields, n,
{
    if n <= 0 || n > fields.len() {
        Seq::empty()
    } else {
        fields_view(fields, n - 1).push((fields[n - 1].0@, json_view(fields[n - 1].1)))
    }
}

impl View for JsonValue {
    type V = Json;

    open spec fn view(&self) -> Json {
        json_view(*self)
    }
}

pub proof fn lemma_items_view(items: Seq<JsonValue>, n: int)
    requires
        0 <= n <= items.len(),
    ensures
        items_view(items, n).len() == n,
        forall|i: int| 0 <= i < n ==> #[trigger] items_view(items, n)[i] == json_view(items[i]),
    decreases n,
{
    if n > 0 {
        lemma_items_view(items, n - 1);
    }
}

pub proof fn lemma_fields_view(fields: Seq<(String, JsonValue)>, n: int)
    requires
        0 <= n <= fields.len(),
    ensures
        fields_view(fields, n).len() == n,
        forall|i: int|
            0 <= i < n ==> #[trigger] fields_view(fields, n)[i] == (fields[i].0@, json_view(fields[i].1)),
    decreases n,
{
    if n > 0 {
        lemma_fields_view(fields, n - 1);
    }
}

/// Whether a field is named `key`.
pub open spec fn named(key: Seq<char>) -> spec_fn((Seq<char>, Json)) -> bool {
    |f: (Seq<char>, Json)| f.0 == key
}

/// The value of the first field named `key` of an object; nothing for
/// another value or a missing field.
pub open spec fn field_of(v: Json, key: Seq<char>) -> Option<Json> {
    match v {
        Json::Object(fields) => match crate::seqs::find_first(fields, named(key)) {
            Some(f) => Some(f.1),
            None => None,
        },
        _ => None,
    }
}

impl JsonValue {
    /// A copy of this value.
    pub fn copy(&self) -> (r: JsonValue)
        ensures
            r@ == self@,
        decreases self,
    {
        match self {
            JsonValue::Null => JsonValue::Null,
            JsonValue::Bool(b) => JsonValue::Bool(*b),
            JsonValue::Number(n) => JsonValue::Number(n.clone()),
            JsonValue::String(s) => JsonValue::String(s.clone()),
            JsonValue::Array(items) => {
                let mut out: Vec<JsonValue> = Vec::new();
                let mut i: usize = 0;
                while i < items.len()
                    invariant
                        i <= items@.len(),
                        out@.len() == i,
                        forall|j: int| 0 <= j < i ==> json_view(#[trigger] out@[j]) == json_view(items@[j]),
                        *self == JsonValue::Array(*items),
                    decreases items.len() - i,
                {
                    proof {
                        assert(decreases_to!(*self => (*self)->Array_0));
                        assert(decreases_to!(*items => items@));
                        assert(decreases_to!(items@ => items@[i as int]));
                    }
                    let c = items[i].copy();
                    out.push(c);
                    i = i + 1;
                }
                proof {
                    lemma_items_view(out@, out@.len() as int);
                    lemma_items_view(items@, items@.len() as int);
                    assert(items_view(out@, out@.len() as int) =~= items_view(items@, items@.len() as int));
                }
                JsonValue::Array(out)
            },
            JsonValue::Object(fields) => {
                let mut out: Vec<(String, JsonValue)> = Vec::new();
                let mut i: usize = 0;
                while i < fields.len()
                    invariant
                        i <= fields@.len(),
                        out@.len() == i,
                        forall|j: int|
                            0 <= j < i ==> (#[trigger] out@[j]).0@ == fields@[j].0@ && json_view(out@[j].1)
                                == json_view(fields@[j].1),
                        *self == JsonValue::Object(*fields),
                    decreases fields.len() - i,
                {
                    proof {
                        assert(decreases_to!(*self => (*self)->Object_0));
                        assert(decreases_to!(*fields => fields@));
                        assert(decreases_to!(fields@ => fields@[i as int]));
                        assert(decreases_to!(fields@[i as int] => fields@[i as int].1));
                    }
                    let c = fields[i].1.copy();
                    out.push((fields[i].0.clone(), c));
                    i = i + 1;
                }
                proof {
                    lemma_fields_view(out@, out@.len() as int);
                    lemma_fields_view(fields@, fields@.len() as int);
                    assert(fields_view(out@, out@.len() as int) =~= fields_view(fields@, fields@.len() as int));
                }
                JsonValue::Object(out)
            },
        }
    }
}

} // verus!

verus! {

/// Whether two values are equal.
pub fn json_eq(a: &JsonValue, b: &JsonValue) -> (r: bool)
    ensures
        r == (a@ == b@),
    decreases a,
{
    match (a, b) {
        (JsonValue::Null, JsonValue::Null) => true,
        (JsonValue::Bool(x), JsonValue::Bool(y)) => *x == *y,
        (JsonValue::Number(x), JsonValue::Number(y)) => crate::text::str_eq(x.as_str(), y.as_str()),
        (JsonValue::String(x), JsonValue::String(y)) => crate::text::str_eq(x.as_str(), y.as_str()),
        (JsonValue::Array(xs), JsonValue::Array(ys)) => {
            proof {
                lemma_items_view(xs@, xs@.len() as int);
                lemma_items_view(ys@, ys@.len() as int);
            }
            if xs.len() != ys.len() {
                assert(items_view(xs@, xs@.len() as int).len() != items_view(ys@, ys@.len() as int).len());
                return false;
            }
            let mut i: usize = 0;
            while i < xs.len()
                invariant
                    i <= xs@.len(),
                    xs@.len() == ys@.len(),
                    forall|j: int| 0 <= j < i ==> json_view(#[trigger] xs@[j]) == json_view(ys@[j]),
                    *a == JsonValue::Array(*xs),
                    *b == JsonValue::Array(*ys),
                decreases xs.len() - i,
            {
                proof {
                    assert(decreases_to!(*a => (*a)->Array_0));
                    assert(decreases_to!(*xs => xs@));
                    assert(decreases_to!(xs@ => xs@[i as int]));
                }
                if !json_eq(&xs[i], &ys[i]) {
                    proof {
                        lemma_items_view(xs@, xs@.len() as int);
                        lemma_items_view(ys@, ys@.len() as int);
                        assert(items_view(xs@, xs@.len() as int)[i as int] != items_view(ys@, ys@.len() as int)[i as int]);
                    }
                    return false;
                }
                i = i + 1;
            }
            proof {
                lemma_items_view(xs@, xs@.len() as int);
                lemma_items_view(ys@, ys@.len() as int);
                assert(items_view(xs@, xs@.len() as int) =~= items_view(ys@, ys@.len() as int));
            }
            true
        },
        (JsonValue::Object(xs), JsonValue::Object(ys)) => {
            proof {
                lemma_fields_view(xs@, xs@.len() as int);
                lemma_fields_view(ys@, ys@.len() as int);
            }
            if xs.len() != ys.len() {
                assert(fields_view(xs@, xs@.len() as int).len() != fields_view(ys@, ys@.len() as int).len());
                return false;
            }
            let mut i: usize = 0;
            while i < xs.len()
                invariant
                    i <= xs@.len(),
                    xs@.len() == ys@.len(),
                    forall|j: int|
                        0 <= j < i ==> (#[trigger] xs@[j]).0@ == ys@[j].0@ && json_view(xs@[j].1) == json_view(
                            ys@[j].1,
                        ),
                    *a == JsonValue::Object(*xs),
                    *b == JsonValue::Object(*ys),
                decreases xs.len() - i,
            {
                proof {
                    assert(decreases_to!(*a => (*a)->Object_0));
                    assert(decreases_to!(*xs => xs@));
                    assert(decreases_to!(xs@ => xs@[i as int]));
                    assert(decreases_to!(xs@[i as int] => xs@[i as int].1));
                    lemma_fields_view(xs@, xs@.len() as int);
                    lemma_fields_view(ys@, ys@.len() as int);
                }
                if !crate::text::str_eq(xs[i].0.as_str(), ys[i].0.as_str()) {
                    assert(fields_view(xs@, xs@.len() as int)[i as int] != fields_view(ys@, ys@.len() as int)[i as int]);
                    return false;
                }
                if !json_eq(&xs[i].1, &ys[i].1) {
                    assert(fields_view(xs@, xs@.len() as int)[i as int] != fields_view(ys@, ys@.len() as int)[i as int]);
                    return false;
                }
                i = i + 1;
            }
            proof {
                assert(fields_view(xs@, xs@.len() as int) =~= fields_view(ys@, ys@.len() as int));
            }
            true
        },
        _ => false,
    }
}

impl JsonValue {
    /// The value of the first field named `key`, for an object.
    pub fn get(&self, key: &str) -> (r: Option<&JsonValue>)
        ensures
            match r {
                Some(x) => field_of(self@, key@) == Some(x@),
                None => field_of(self@, key@) is None,
            },
    {
        match self {
            JsonValue::Object(fields) => {
                let ghost fv = fields_view(fields@, fields@.len() as int);
                proof {
                    lemma_fields_view(fields@, fields@.len() as int);
                }
                let mut i: usize = 0;
                while i < fields.len()
                    invariant
                        i <= fields@.len(),
                        fv == fields_view(fields@, fields@.len() as int),
                        *self == JsonValue::Object(*fields),
                        fv.len() == fields@.len(),
                        forall|j: int| 0 <= j < fields@.len() ==> #[trigger] fv[j] == (fields@[j].0@, json_view(fields@[j].1)),
                        forall|j: int| 0 <= j < i ==> !named(key@)(#[trigger] fv[j]),
                    decreases fields.len() - i,
                {
                    assert(fv[i as int] == (fields@[i as int].0@, json_view(fields@[i as int].1)));
                    if crate::text::str_eq(fields[i].0.as_str(), key) {
                        proof {
                            crate::seqs::lemma_find_at(fv, named(key@), i as int);
                            assert(self@ == Json::Object(fv));
                            assert(fields@[i as int].1@ == fv[i as int].1);
                        }
                        return Some(&fields[i].1);
                    }
                    i = i + 1;
                }
                proof {
                    crate::seqs::lemma_find_none(fv, named(key@));
                }
                None
            },
            _ => None,
        }
    }

    /// The text of a string value.
    pub fn as_str(&self) -> (r: Option<&str>)
        ensures
            match r {
                Some(s) => self@ == Json::Str(s@),
                None => !(self@ is Str),
            },
    {
        match self {
            JsonValue::String(s) => Some(s.as_str()),
            _ => None,
        }
    }
}

} // verus!

verus! {

/// The first position whose field name does not sort before `key`.
pub open spec fn field_seek(fields: Seq<(Seq<char>, Json)>, key: Seq<char>) -> int
    decreases fields.len(),
{
    if fields.len() == 0 {
        0
    } else if !crate::text::lex_lt(fields[0].0, key) {
        0
    } else {
        1 + field_seek(fields.drop_first(), key)
    }
}

/// An object without its field `key`; another value unchanged.
pub open spec fn without_field(v: Json, key: Seq<char>) -> Json {
    match v {
        Json::Object(fields) => {
            let p = crate::seqs::position(fields, named(key));
            if p < fields.len() {
                Json::Object(fields.remove(p))
            } else {
                v
            }
        },
        _ => v,
    }
}

/// An object with its field `key` set to `val`, a new field going to its
/// place in key order; another value unchanged.
pub open spec fn with_field(v: Json, key: Seq<char>, val: Json) -> Json {
    match v {
        Json::Object(fields) => {
            let p = crate::seqs::position(fields, named(key));
            if p < fields.len() {
                Json::Object(fields.update(p, (key, val)))
            } else {
                Json::Object(fields.insert(field_seek(fields, key), (key, val)))
            }
        },
        _ => v,
    }
}

proof fn lemma_field_seek(fields: Seq<(Seq<char>, Json)>, key: Seq<char>, i: int)
    requires
        0 <= i <= fields.len(),
        forall|j: int| 0 <= j < i ==> crate::text::lex_lt(#[trigger] fields[j].0, key),
        i == fields.len() || !crate::text::lex_lt(fields[i].0, key),
    ensures
        field_seek(fields, key) == i,
    decreases i,
{
    if i > 0 {
        assert forall|j: int| 0 <= j < i - 1 implies crate::text::lex_lt(#[trigger] fields.drop_first()[j].0, key) by {
            assert(fields.drop_first()[j] == fields[j + 1]);
        }
        lemma_field_seek(fields.drop_first(), key, i - 1);
    }
}

impl JsonValue {
    /// Removes the field `key` of an object (see `without_field`).
    pub fn remove_field(&mut self, key: &str)
        ensures
            final(self)@ == without_field(old(self)@, key@),
    {
        let mut tmp = JsonValue::Null;
        std::mem::swap(self, &mut tmp);
        match tmp {
            JsonValue::Object(mut fields) => {
                let ghost fv = fields_view(fields@, fields@.len() as int);
                proof {
                    lemma_fields_view(fields@, fields@.len() as int);
                }
                let mut i: usize = 0;
                while i < fields.len()
                    invariant
                        i <= fields@.len(),
                        fv.len() == fields@.len(),
                        forall|j: int| 0 <= j < fields@.len() ==> #[trigger] fv[j] == (fields@[j].0@, json_view(fields@[j].1)),
                        forall|j: int| 0 <= j < i ==> !named(key@)(#[trigger] fv[j]),
                        old(self)@ == Json::Object(fv),
                    decreases fields.len() - i,
                {
                    assert(fv[i as int] == (fields@[i as int].0@, json_view(fields@[i as int].1)));
                    if crate::text::str_eq(fields[i].0.as_str(), key) {
                        proof {
                            crate::seqs::lemma_position(fv, named(key@), i as int);
                        }
                        let _ = fields.remove(i);
                        proof {
                            lemma_fields_view(fields@, fields@.len() as int);
                            assert(fields_view(fields@, fields@.len() as int) =~= fv.remove(i as int));
                        }
                        *self = JsonValue::Object(fields);
                        return;
                    }
                    i = i + 1;
                }
                proof {
                    crate::seqs::lemma_position(fv, named(key@), i as int);
                    lemma_fields_view(fields@, fields@.len() as int);
                    assert(fields_view(fields@, fields@.len() as int) =~= fv);
                }
                *self = JsonValue::Object(fields);
            },
            other => {
                *self = other;
            },
        }
    }

    /// Sets the field `key` of an object to `val` (see `with_field`).
    pub fn insert_field(&mut self, key: String, val: JsonValue)
        ensures
            final(self)@ == with_field(old(self)@, key@, val@),
    {
        let mut tmp = JsonValue::Null;
        std::mem::swap(self, &mut tmp);
        match tmp {
            JsonValue::Object(mut fields) => {
                let ghost fv = fields_view(fields@, fields@.len() as int);
                proof {
                    lemma_fields_view(fields@, fields@.len() as int);
                }
                let mut i: usize = 0;
                while i < fields.len()
                    invariant
                        i <= fields@.len(),
                        fv.len() == fields@.len(),
                        forall|j: int| 0 <= j < fields@.len() ==> #[trigger] fv[j] == (fields@[j].0@, json_view(fields@[j].1)),
                        forall|j: int| 0 <= j < i ==> !named(key@)(#[trigger] fv[j]),
                        old(self)@ == Json::Object(fv),
                    decreases fields.len() - i,
                {
                    assert(fv[i as int] == (fields@[i as int].0@, json_view(fields@[i as int].1)));
                    if crate::text::str_eq(fields[i].0.as_str(), key.as_str()) {
                        proof {
                            crate::seqs::lemma_position(fv, named(key@), i as int);
                        }
                        let ghost kv = (key@, val@);
                        let _ = fields.remove(i);
                        fields.insert(i, (key, val));
                        proof {
                            lemma_fields_view(fields@, fields@.len() as int);
                            assert(fields_view(fields@, fields@.len() as int) =~= fv.update(i as int, kv));
                        }
                        *self = JsonValue::Object(fields);
                        return;
                    }
                    i = i + 1;
                }
                proof {
                    crate::seqs::lemma_position(fv, named(key@), i as int);
                }
                let mut k: usize = 0;
                while k < fields.len() && crate::text::str_lt(fields[k].0.as_str(), key.as_str())
                    invariant
                        k <= fields@.len(),
                        fv.len() == fields@.len(),
                        forall|j: int| 0 <= j < fields@.len() ==> #[trigger] fv[j] == (fields@[j].0@, json_view(fields@[j].1)),
                        forall|j: int| 0 <= j < k ==> crate::text::lex_lt(#[trigger] fv[j].0, key@),
                    decreases fields.len() - k,
                {
                    assert(fv[k as int] == (fields@[k as int].0@, json_view(fields@[k as int].1)));
                    k = k + 1;
                }
                proof {
                    if k < fields.len() {
                        assert(fv[k as int] == (fields@[k as int].0@, json_view(fields@[k as int].1)));
                    }
                    lemma_field_seek(fv, key@, k as int);
                }
                let ghost kv = (key@, val@);
                fields.insert(k, (key, val));
                proof {
                    lemma_fields_view(fields@, fields@.len() as int);
                    assert(fields_view(fields@, fields@.len() as int) =~= fv.insert(k as int, kv));
                }
                *self = JsonValue::Object(fields);
            },
            other => {
                *self = other;
            },
        }
    }
}

} // verus!

verus! {

impl Clone for JsonValue {
    fn clone(&self) -> (r: Self)
        ensures
            r@ == self@,
    {
        self.copy()
    }
}

} // verus!
