//! Searching and filtering sequences by a predicate.
use vstd::prelude::*;

verus! {

/// The first element that satisfies `p`.
pub open spec fn find_first<A>(s: Seq<A>, p: spec_fn(A) -> bool) -> Option<A>
    decreases s.len(),
{
    if s.len() == 0 {
        None
    } else if p(s[0]) {
        Some(s[0])
    } else {
        find_first(s.drop_first(), p)
    }
}

/// The elements that satisfy `p`, in order.
pub open spec fn keep<A>(s: Seq<A>, p: spec_fn(A) -> bool) -> Seq<A>
    decreases s.len(),
{
    if s.len() == 0 {
        s
    } else if p(s.last()) {
        keep(s.drop_last(), p).push(s.last())
    } else {
        keep(s.drop_last(), p)
    }
}

pub proof fn lemma_find_skip<A>(s: Seq<A>, p: spec_fn(A) -> bool, i: int)
    requires
        0 <= i <= s.len(),
        forall|j: int| 0 <= j < i ==> !p(#[trigger] s[j]),
    ensures
        find_first(s, p) == find_first(s.subrange(i, s.len() as int), p),
    decreases i,
{
    if i > 0 {
        assert(s.drop_first().subrange(i - 1, s.len() - 1) =~= s.subrange(i, s.len() as int));
        lemma_find_skip(s.drop_first(), p, i - 1);
    } else {
        assert(s.subrange(0, s.len() as int) =~= s);
    }
}

pub proof fn lemma_find_at<A>(s: Seq<A>, p: spec_fn(A) -> bool, i: int)
    requires
        0 <= i < s.len(),
        p(s[i]),
        forall|j: int| 0 <= j < i ==> !p(#[trigger] s[j]),
    ensures
        find_first(s, p) == Some(s[i]),
{
    lemma_find_skip(s, p, i);
    assert(s.subrange(i, s.len() as int)[0] == s[i]);
}

pub proof fn lemma_find_none<A>(s: Seq<A>, p: spec_fn(A) -> bool)
    requires
        forall|j: int| 0 <= j < s.len() ==> !p(#[trigger] s[j]),
    ensures
        find_first(s, p) is None,
{
    lemma_find_skip(s, p, s.len() as int);
}

pub proof fn lemma_keep_step<A>(s: Seq<A>, p: spec_fn(A) -> bool, i: int)
    requires
        0 <= i < s.len(),
    ensures
        keep(s.subrange(0, i + 1), p) == if p(s[i]) {
            keep(s.subrange(0, i), p).push(s[i])
        } else {
            keep(s.subrange(0, i), p)
        },
{
    let t = s.subrange(0, i + 1);
    assert(t.drop_last() =~= s.subrange(0, i));
    assert(t.last() == s[i]);
}

/// An element satisfying `p` is found exactly when one exists.
pub proof fn lemma_find_some_iff<A>(s: Seq<A>, p: spec_fn(A) -> bool)
    ensures
        find_first(s, p) is Some <==> exists|j: int| 0 <= j < s.len() && p(#[trigger] s[j]),
        find_first(s, p) matches Some(x) ==> p(x),
    decreases s.len(),
{
    if s.len() > 0 {
        lemma_find_some_iff(s.drop_first(), p);
        if exists|j: int| 0 <= j < s.len() && p(#[trigger] s[j]) {
            let j = choose|j: int| 0 <= j < s.len() && p(#[trigger] s[j]);
            if j > 0 {
                assert(p(s.drop_first()[j - 1]));
            }
        }
        if exists|j: int| 0 <= j < s.drop_first().len() && p(#[trigger] s.drop_first()[j]) {
            let j = choose|j: int| 0 <= j < s.drop_first().len() && p(#[trigger] s.drop_first()[j]);
            assert(p(s[j + 1]));
        }
    }
}

} // verus!

verus! {

/// The position of the first element that satisfies `p`, or the length
/// when none does.
pub open spec fn position<A>(s: Seq<A>, p: spec_fn(A) -> bool) -> int
    decreases s.len(),
{
    if s.len() == 0 {
        0
    } else if p(s[0]) {
        0
    } else {
        1 + position(s.drop_first(), p)
    }
}

pub proof fn lemma_position<A>(s: Seq<A>, p: spec_fn(A) -> bool, i: int)
    requires
        0 <= i <= s.len(),
        forall|j: int| 0 <= j < i ==> !p(#[trigger] s[j]),
        i == s.len() || p(s[i]),
    ensures
        position(s, p) == i,
        i < s.len() ==> find_first(s, p) == Some(s[i]),
        i == s.len() ==> find_first(s, p) is None,
    decreases i,
{
    if i > 0 {
        assert forall|j: int| 0 <= j < i - 1 implies !p(#[trigger] s.drop_first()[j]) by {
            assert(s.drop_first()[j] == s[j + 1]);
        }
        lemma_position(s.drop_first(), p, i - 1);
    }
    if i < s.len() {
        lemma_find_at(s, p, i);
    } else {
        lemma_find_none(s, p);
    }
}

pub proof fn lemma_position_bounds<A>(s: Seq<A>, p: spec_fn(A) -> bool)
    ensures
        0 <= position(s, p) <= s.len(),
        position(s, p) < s.len() ==> p(s[position(s, p)]),
        forall|j: int| 0 <= j < position(s, p) ==> !p(#[trigger] s[j]),
    decreases s.len(),
{
    if s.len() > 0 && !p(s[0]) {
        lemma_position_bounds(s.drop_first(), p);
        assert forall|j: int| 0 <= j < position(s, p) implies !p(#[trigger] s[j]) by {
            if j > 0 {
                assert(s[j] == s.drop_first()[j - 1]);
            }
        }
    }
}

} // verus!

verus! {

pub proof fn lemma_position_find<A>(s: Seq<A>, p: spec_fn(A) -> bool)
    ensures
        0 <= position(s, p) <= s.len(),
        position(s, p) < s.len() ==> p(s[position(s, p)]) && find_first(s, p) == Some(s[position(s, p)]),
        position(s, p) == s.len() ==> find_first(s, p) is None,
        forall|j: int| 0 <= j < position(s, p) ==> !p(#[trigger] s[j]),
{
    lemma_position_bounds(s, p);
    lemma_position(s, p, position(s, p));
}

} // verus!

verus! {

pub proof fn lemma_keep_len<A>(s: Seq<A>, p: spec_fn(A) -> bool)
    ensures
        keep(s, p).len() <= s.len(),
    decreases s.len(),
{
    if s.len() > 0 {
        lemma_keep_len(s.drop_last(), p);
    }
}

} // verus!

verus! {

pub proof fn lemma_keep_contains<A>(s: Seq<A>, p: spec_fn(A) -> bool, x: A)
    ensures
        keep(s, p).contains(x) <==> s.contains(x) && p(x),
    decreases s.len(),
{
    if s.len() > 0 {
        lemma_keep_contains(s.drop_last(), p, x);
        if s.drop_last().contains(x) {
            let j = choose|j: int| 0 <= j < s.drop_last().len() && s.drop_last()[j] == x;
            assert(s[j] == x);
        }
        if s.contains(x) {
            let j = choose|j: int| 0 <= j < s.len() && s[j] == x;
            if j < s.len() - 1 {
                assert(s.drop_last()[j] == x);
            }
        }
        if p(s.last()) {
            let k = keep(s.drop_last(), p);
            if k.contains(x) {
                let j = choose|j: int| 0 <= j < k.len() && k[j] == x;
                assert(k.push(s.last())[j] == x);
            }
            if k.push(s.last()).contains(x) {
                let j = choose|j: int| 0 <= j < k.len() + 1 && k.push(s.last())[j] == x;
                if j < k.len() {
                    assert(k[j] == x);
                }
            }
            assert(k.push(s.last())[k.len() as int] == s.last());
        }
    }
}

pub proof fn lemma_keep_no_duplicates<A>(s: Seq<A>, p: spec_fn(A) -> bool)
    requires
        s.no_duplicates(),
    ensures
        keep(s, p).no_duplicates(),
    decreases s.len(),
{
    if s.len() > 0 {
        let d = s.drop_last();
        assert(d.no_duplicates()) by {
            assert forall|i: int, j: int| 0 <= i < d.len() && 0 <= j < d.len() && i != j implies d[i] != d[j] by {
                assert(d[i] == s[i] && d[j] == s[j]);
            }
        }
        lemma_keep_no_duplicates(d, p);
        if p(s.last()) {
            let k = keep(d, p);
            lemma_keep_contains(d, p, s.last());
            assert(!d.contains(s.last())) by {
                if d.contains(s.last()) {
                    let j = choose|j: int| 0 <= j < d.len() && d[j] == s.last();
                    assert(s[j] == s[s.len() - 1]);
                }
            }
            assert forall|i: int, j: int| 0 <= i < k.len() + 1 && 0 <= j < k.len() + 1 && i != j implies k.push(
                s.last(),
            )[i] != k.push(s.last())[j] by {
                if i == k.len() {
                    assert(k.contains(k[j]));
                } else if j == k.len() {
                    assert(k.contains(k[i]));
                }
            }
        }
    }
}

/// Keeping by two tests that agree on every element gives the same.
pub proof fn lemma_keep_same<A>(s: Seq<A>, p: spec_fn(A) -> bool, q: spec_fn(A) -> bool)
    requires
        forall|i: int| 0 <= i < s.len() ==> p(#[trigger] s[i]) == q(s[i]),
    ensures
        keep(s, p) == keep(s, q),
    decreases s.len(),
{
    if s.len() > 0 {
        assert forall|i: int| 0 <= i < s.drop_last().len() implies p(#[trigger] s.drop_last()[i]) == q(s.drop_last()[i]) by {
            assert(s.drop_last()[i] == s[i]);
        }
        lemma_keep_same(s.drop_last(), p, q);
        assert(p(s[s.len() - 1]) == q(s[s.len() - 1]));
    }
}

} // verus!
