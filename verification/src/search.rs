//! First and last positions in a sequence that satisfy a predicate.
use vstd::prelude::*;

verus! {

/// The first position of `s` whose element satisfies `p`.
pub open spec fn first_index<A>(s: Seq<A>, p: spec_fn(A) -> bool) -> Option<int>
    decreases s.len(),
{
    if s.len() == 0 {
        None
    } else if p(s[0]) {
        Some(0)
    } else {
        match first_index(s.drop_first(), p) {
            Some(i) => Some(i + 1),
            None => None,
        }
    }
}

/// The last position of `s` whose element satisfies `p`.
pub open spec fn last_index<A>(s: Seq<A>, p: spec_fn(A) -> bool) -> Option<int>
    decreases s.len(),
{
    if s.len() == 0 {
        None
    } else if p(s.last()) {
        Some(s.len() - 1)
    } else {
        last_index(s.drop_last(), p)
    }
}

pub proof fn lemma_first_index<A>(s: Seq<A>, p: spec_fn(A) -> bool)
    ensures
        first_index(s, p) matches Some(i) ==> 0 <= i < s.len() && p(s[i]) && forall|j: int|
            0 <= j < i ==> !p(s[j]),
        first_index(s, p) is None ==> forall|j: int| 0 <= j < s.len() ==> !p(s[j]),
    decreases s.len(),
{
    if s.len() > 0 && !p(s[0]) {
        lemma_first_index(s.drop_first(), p);
        assert forall|j: int| 1 <= j < s.len() implies s[j] == s.drop_first()[j - 1] by {}
    }
}

pub proof fn lemma_last_index<A>(s: Seq<A>, p: spec_fn(A) -> bool)
    ensures
        last_index(s, p) matches Some(i) ==> 0 <= i < s.len() && p(s[i]) && forall|j: int|
            i < j < s.len() ==> !p(s[j]),
        last_index(s, p) is None ==> forall|j: int| 0 <= j < s.len() ==> !p(s[j]),
    decreases s.len(),
{
    if s.len() > 0 && !p(s.last()) {
        lemma_last_index(s.drop_last(), p);
        assert forall|j: int| 0 <= j < s.len() - 1 implies s[j] == s.drop_last()[j] by {}
    }
}

/// A position that satisfies `p` and has none before it is the first index.
pub proof fn lemma_first_index_is<A>(s: Seq<A>, p: spec_fn(A) -> bool, i: int)
    requires
        0 <= i < s.len(),
        p(s[i]),
        forall|j: int| 0 <= j < i ==> !p(s[j]),
    ensures
        first_index(s, p) == Some(i),
{
    lemma_first_index(s, p);
    if let Some(k) = first_index(s, p) {
        if k < i {
            assert(!p(s[k]));
        } else if k > i {
            assert(!p(s[i]));
        }
    }
}

/// A position that satisfies `p` and has none after it is the last index.
pub proof fn lemma_last_index_is<A>(s: Seq<A>, p: spec_fn(A) -> bool, i: int)
    requires
        0 <= i < s.len(),
        p(s[i]),
        forall|j: int| i < j < s.len() ==> !p(s[j]),
    ensures
        last_index(s, p) == Some(i),
{
    lemma_last_index(s, p);
    if let Some(k) = last_index(s, p) {
        if k < i {
            assert(!p(s[i]));
        } else if k > i {
            assert(!p(s[k]));
        }
    }
}

/// Two sequences whose elements satisfy their predicates at the same
/// positions have the same first index.
pub proof fn lemma_first_index_same<A, B>(a: Seq<A>, pa: spec_fn(A) -> bool, b: Seq<B>, pb: spec_fn(B) -> bool)
    requires
        a.len() == b.len(),
        forall|j: int| 0 <= j < a.len() ==> pa(a[j]) == pb(b[j]),
    ensures
        first_index(a, pa) == first_index(b, pb),
{
    lemma_first_index(a, pa);
    lemma_first_index(b, pb);
    if let Some(i) = first_index(a, pa) {
        lemma_first_index_is(b, pb, i);
    } else if let Some(i) = first_index(b, pb) {
        assert(pa(a[i]));
    }
}

/// The first index after one more element: the earlier one when there is
/// one, else the new element's position when it satisfies `p`.
pub proof fn lemma_first_index_push<A>(a: Seq<A>, x: A, p: spec_fn(A) -> bool)
    ensures
        first_index(a.push(x), p) == match first_index(a, p) {
            Some(i) => Some(i),
            None => if p(x) {
                Some(a.len() as int)
            } else {
                None
            },
        },
{
    lemma_first_index(a, p);
    let b = a.push(x);
    if let Some(i) = first_index(a, p) {
        assert forall|j: int| 0 <= j < i implies !p(b[j]) by {
            assert(b[j] == a[j]);
        }
        lemma_first_index_is(b, p, i);
    } else {
        assert forall|j: int| 0 <= j < a.len() implies !p(b[j]) by {
            assert(b[j] == a[j]);
        }
        if p(x) {
            lemma_first_index_is(b, p, a.len() as int);
        } else {
            lemma_first_index(b, p);
            if let Some(k) = first_index(b, p) {
                if k < a.len() {
                    assert(b[k] == a[k]);
                }
            }
        }
    }
}

} // verus!
