//! Bearer-token authentication: clients send `Authorization: Bearer <token>`.
use vstd::prelude::*;
use vstd::utf8::encode_utf8;
use crate::text::{chars_of, str_eq, trim, trim_slice, views};

verus! {

/// An authentication backend.
pub trait Authenticator {
    /// Whether `token` is accepted.
    fn validate(&self, token: &str) -> bool;
}

/// In-memory set of accepted tokens.  Authentication is on exactly when a
/// master token was given at creation.
#[derive(Debug)]
pub struct AuthManager {
    tokens: Vec<String>,
    enabled: bool,
}

/// The plain value of an `AuthManager`.
pub struct AuthView {
    pub tokens: Set<Seq<char>>,
    pub enabled: bool,
}

impl AuthManager {
    /// The manager's state as plain values.
    pub closed spec fn spec_state(&self) -> AuthView {
        AuthView {
            tokens: Set::new(|x: Seq<char>| views(self.tokens@).contains(x)),
            enabled: self.enabled,
        }
    }
}

impl View for AuthManager {
    type V = AuthView;

    open spec fn view(&self) -> AuthView {
        self.spec_state()
    }
}

/// `"bearer "`, the scheme prefix in lowercase.
pub open spec fn bearer_prefix() -> Seq<char> {
    seq!['b', 'e', 'a', 'r', 'e', 'r', ' ']
}

/// ASCII lowercase of a character; other characters are unchanged.
pub open spec fn ascii_lower(c: char) -> char {
    if 65 <= (c as u32) <= 90 {
        ((c as u32) + 32) as char
    } else {
        c
    }
}

/// The token of an `Authorization` header: after trimming, the header must
/// be longer than `"Bearer "` and start with it, in any ASCII case.
pub open spec fn bearer_token(header: Seq<char>) -> Option<Seq<char>> {
    let t = trim(header);
    if t.len() > 7 && forall|i: int| 0 <= i < 7 ==> ascii_lower(#[trigger] t[i]) == bearer_prefix()[i] {
        Some(t.subrange(7, t.len() as int))
    } else {
        None
    }
}

fn lower_code(c: char) -> (r: u32)
    ensures
        r == ascii_lower(c) as u32,
{
    let u = c as u32;
    if 65 <= u && u <= 90 {
        let l = u + 32;
        assert((l as char) as u32 == l) by {
            vstd::utf8::char_u32_cast(((c as u32) + 32) as char, l);
        }
        l
    } else {
        u
    }
}

impl AuthManager {
    /// A manager that accepts `master_token`; without one, authentication is off.
    pub fn new(master_token: Option<String>) -> (r: Self)
        ensures
            r@.enabled == (master_token is Some),
            r@.tokens == match master_token {
                Some(t) => Set::<Seq<char>>::empty().insert(t@),
                None => Set::<Seq<char>>::empty(),
            },
    {
        let enabled = master_token.is_some();
        let ghost m = master_token;
        let mut tokens: Vec<String> = Vec::new();
        match master_token {
            Some(t) => {
                tokens.push(t);
            },
            None => {},
        }
        let r = AuthManager { tokens, enabled };
        proof {
            match m {
                Some(t) => {
                    assert(views(r.tokens@) =~= seq![t@]);
                    assert forall|x: Seq<char>| views(r.tokens@).contains(x) <==> x == t@ by {
                        if x == t@ {
                            assert(views(r.tokens@)[0] == x);
                        }
                    }
                    assert(r@.tokens =~= Set::<Seq<char>>::empty().insert(t@));
                },
                None => {
                    assert(r@.tokens =~= Set::<Seq<char>>::empty());
                },
            }
        }
        r
    }

    fn position(&self, token: &str) -> (r: Option<usize>)
        ensures
            match r {
                Some(i) => i < self.tokens@.len() && self.tokens@[i as int]@ == token@,
                None => !views(self.tokens@).contains(token@),
            },
    {
        let mut i: usize = 0;
        while i < self.tokens.len()
            invariant
                i <= self.tokens.len(),
                forall|j: int| 0 <= j < i ==> self.tokens@[j]@ != token@,
            decreases self.tokens.len() - i,
        {
            if str_eq(self.tokens[i].as_str(), token) {
                return Some(i);
            }
            i = i + 1;
        }
        proof {
            if views(self.tokens@).contains(token@) {
                let j = choose|j: int| 0 <= j < views(self.tokens@).len() && views(self.tokens@)[j] == token@;
                assert(self.tokens@[j]@ == token@);
            }
        }
        None
    }

    /// Accepts `token` from now on.
    pub fn add_token(&mut self, token: String)
        ensures
            final(self)@ == (AuthView { tokens: old(self)@.tokens.insert(token@), ..old(self)@ }),
    {
        match self.position(token.as_str()) {
            Some(i) => {
                assert(views(self.tokens@)[i as int] == token@);
                assert(self@.tokens =~= old(self)@.tokens.insert(token@));
            },
            None => {
                let ghost tv = token@;
                self.tokens.push(token);
                assert(views(self.tokens@) =~= views(old(self).tokens@).push(tv));
                assert forall|x: Seq<char>| views(self.tokens@).contains(x) <==> (views(
                    old(self).tokens@,
                ).contains(x) || x == tv) by {
                    if views(self.tokens@).contains(x) {
                        let j = choose|j: int| 0 <= j < views(self.tokens@).len() && views(self.tokens@)[j] == x;
                        if j < views(old(self).tokens@).len() {
                            assert(views(old(self).tokens@)[j] == x);
                        }
                    }
                    if views(old(self).tokens@).contains(x) {
                        let j = choose|j: int| 0 <= j < views(old(self).tokens@).len() && views(old(self).tokens@)[j] == x;
                        assert(views(self.tokens@)[j] == x);
                    }
                    if x == tv {
                        assert(views(self.tokens@)[views(self.tokens@).len() - 1] == x);
                    }
                }
                assert(self@.tokens =~= old(self)@.tokens.insert(tv));
            },
        }
    }

    /// Stops accepting `token`; reports whether it was accepted.
    pub fn remove_token(&mut self, token: &str) -> (r: bool)
        ensures
            r == old(self)@.tokens.contains(token@),
            final(self)@ == (AuthView { tokens: old(self)@.tokens.remove(token@), ..old(self)@ }),
    {
        let ghost old_v = views(self.tokens@);
        let mut kept: Vec<String> = Vec::new();
        let mut found = false;
        let mut i: usize = 0;
        while i < self.tokens.len()
            invariant
                i <= self.tokens.len(),
                old_v == views(self.tokens@),
                self@ == old(self)@,
                found == old_v.subrange(0, i as int).contains(token@),
                forall|x: Seq<char>| #[trigger] views(kept@).contains(x) <==> (old_v.subrange(0, i as int).contains(x)
                    && x != token@),
            decreases self.tokens.len() - i,
        {
            let ghost before = views(kept@);
            let ghost prefix = old_v.subrange(0, i as int);
            let ghost next = old_v.subrange(0, i + 1);
            assert(next =~= prefix.push(old_v[i as int]));
            assert forall|x: Seq<char>| next.contains(x) <==> (prefix.contains(x) || x == old_v[i as int]) by {
                if next.contains(x) {
                    let j = choose|j: int| 0 <= j < next.len() && next[j] == x;
                    if j < i {
                        assert(prefix[j] == x);
                    }
                }
                if prefix.contains(x) {
                    let j = choose|j: int| 0 <= j < prefix.len() && prefix[j] == x;
                    assert(next[j] == x);
                }
                if x == old_v[i as int] {
                    assert(next[i as int] == x);
                }
            }
            assert(old_v[i as int] == self.tokens@[i as int]@);
            if str_eq(self.tokens[i].as_str(), token) {
                found = true;
            } else {
                let ghost tv = self.tokens@[i as int]@;
                kept.push(self.tokens[i].clone());
                assert(views(kept@) =~= before.push(tv));
                assert forall|x: Seq<char>| views(kept@).contains(x) <==> (before.contains(x) || x == tv) by {
                    if views(kept@).contains(x) {
                        let j = choose|j: int| 0 <= j < views(kept@).len() && views(kept@)[j] == x;
                        if j < before.len() {
                            assert(before[j] == x);
                        }
                    }
                    if before.contains(x) {
                        let j = choose|j: int| 0 <= j < before.len() && before[j] == x;
                        assert(views(kept@)[j] == x);
                    }
                    if x == tv {
                        assert(views(kept@)[before.len() as int] == x);
                    }
                }
            }
            assert forall|x: Seq<char>| #[trigger] views(kept@).contains(x) <==> (next.contains(x) && x
                != token@) by {
                assert(before.contains(x) <==> (prefix.contains(x) && x != token@));
                assert(next.contains(x) <==> (prefix.contains(x) || x == old_v[i as int]));
            }
            i = i + 1;
        }
        assert(old_v.subrange(0, i as int) =~= old_v);
        self.tokens = kept;
        assert(self@.tokens =~= old(self)@.tokens.remove(token@));
        found
    }

    /// Whether authentication is on.
    pub fn is_enabled(&self) -> (r: bool)
        ensures
            r == self@.enabled,
    {
        self.enabled
    }

    /// The token of an `Authorization` header value (see `bearer_token`).
    pub fn extract_token(header: &str) -> (r: Option<&str>)
        requires
            encode_utf8(trim(header@)).len() > 7 ==> exists|n: int|
                0 <= n <= trim(header@).len() && #[trigger] encode_utf8(trim(header@).take(n)).len() == 7,
        ensures
            match r {
                Some(t) => bearer_token(header@) == Some(t@),
                None => bearer_token(header@) is None,
            },
    {
        let t = trim_slice(header);
        let cs = chars_of(t);
        if cs.len() <= 7 {
            return None;
        }
        let expected: [u32; 7] = [98, 101, 97, 114, 101, 114, 32];
        let mut i: usize = 0;
        while i < 7
            invariant
                i <= 7,
                cs@ == trim(header@),
                cs@.len() > 7,
                expected@ == seq![98u32, 101u32, 97u32, 114u32, 101u32, 114u32, 32u32],
                forall|j: int| 0 <= j < i ==> ascii_lower(#[trigger] cs@[j]) == bearer_prefix()[j],
            decreases 7 - i,
        {
            let lc = lower_code(cs[i]);
            if lc != expected[i] {
                proof {
                    assert(bearer_prefix()[i as int] as u32 == expected@[i as int]);
                }
                return None;
            }
            proof {
                let c = ascii_lower(cs@[i as int]);
                let b = bearer_prefix()[i as int];
                assert(b as u32 == expected@[i as int]);
                vstd::utf8::char_u32_cast(c, c as u32);
                vstd::utf8::char_u32_cast(b, b as u32);
            }
            i = i + 1;
        }
        Some(t.substring_char(7, cs.len()))
    }
}

impl Authenticator for AuthManager {
    /// Every token is accepted when authentication is off.
    fn validate(&self, token: &str) -> (r: bool)
        ensures
            r == (!self@.enabled || self@.tokens.contains(token@)),
    {
        if !self.enabled {
            return true;
        }
        match self.position(token) {
            Some(i) => {
                assert(views(self.tokens@)[i as int] == token@);
                true
            },
            None => false,
        }
    }
}

} // verus!

verus! {

impl AuthView {
    /// Whether `token` is accepted: every token is when authentication is off.
    pub open spec fn accepts(self, token: Seq<char>) -> bool {
        !self.enabled || self.tokens.contains(token)
    }
}

/// A token just added is accepted, and the others are accepted as before.
pub proof fn lemma_added_token_accepted(a: AuthView, token: Seq<char>, other: Seq<char>)
    ensures
        (AuthView { tokens: a.tokens.insert(token), ..a }).accepts(token),
        other != token ==> (AuthView { tokens: a.tokens.insert(token), ..a }).accepts(other) == a.accepts(other),
{
}

/// With authentication on, a token just removed is refused, and the others
/// are accepted as before.
pub proof fn lemma_removed_token_refused(a: AuthView, token: Seq<char>, other: Seq<char>)
    requires
        a.enabled,
    ensures
        !(AuthView { tokens: a.tokens.remove(token), ..a }).accepts(token),
        other != token ==> (AuthView { tokens: a.tokens.remove(token), ..a }).accepts(other) == a.accepts(other),
{
}

/// Without authentication every token is accepted, whatever the token set.
pub proof fn lemma_disabled_accepts_all(a: AuthView, token: Seq<char>)
    requires
        !a.enabled,
    ensures
        a.accepts(token),
{
}

/// Whether a request with the `Authorization` header `header` (if any) may
/// proceed: always when authentication is off; otherwise only with a bearer
/// token that `auth` accepts.
pub fn request_authorized(auth: &AuthManager, header: Option<&str>) -> (r: bool)
    requires
        header matches Some(h) ==> (encode_utf8(trim(h@)).len() > 7 ==> exists|n: int|
            0 <= n <= trim(h@).len() && #[trigger] encode_utf8(trim(h@).take(n)).len() == 7),
    ensures
        r == (!auth@.enabled || match header {
            Some(h) => match bearer_token(h@) {
                Some(t) => auth@.tokens.contains(t),
                None => false,
            },
            None => false,
        }),
{
    if !auth.is_enabled() {
        return true;
    }
    match header {
        Some(h) => match AuthManager::extract_token(h) {
            Some(t) => auth.validate(t),
            None => false,
        },
        None => false,
    }
}

} // verus!
