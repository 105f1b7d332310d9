//! Searching and counting in sequences.

use vstd::prelude::*;

verus! {

/// Index of the first element of `s` for which `p` holds.
pub open spec fn first_where<T>(s: Seq<T>, p: spec_fn(T) -> bool) -> Option<int>
    decreases s.len(),
{
    if s.len() == 0 {
        None
    } else if p(s[0]) {
        Some(0)
    } else {
        match first_where(s.drop_first(), p) {
            Some(i) => Some(i + 1),
            None => None,
        }
    }
}

/// `first_where` gives an index at which `p` holds and before which it does
/// not, and gives none only when `p` holds nowhere.
pub proof fn lemma_first_where<T>(s: Seq<T>, p: spec_fn(T) -> bool)
    ensures
        first_where(s, p) matches Some(i) ==> 0 <= i < s.len() && p(s[i]) && (forall|j: int|
            #![trigger s[j]]
            0 <= j < i ==> !p(s[j])),
        first_where(s, p) is None ==> (forall|j: int| #![trigger s[j]] 0 <= j < s.len() ==> !p(s[j])),
    decreases s.len(),
{
    if s.len() == 0 {
    } else if p(s[0]) {
    } else {
        let rest = s.drop_first();
        lemma_first_where(rest, p);
        assert(forall|j: int| 0 <= j < rest.len() ==> rest[j] == s[j + 1]);
        match first_where(rest, p) {
            Some(i) => {
                assert(s[i + 1] == rest[i]);
                assert forall|j: int| #![trigger s[j]] 0 <= j < i + 1 implies !p(s[j]) by {
                    if j > 0 {
                        assert(rest[j - 1] == s[j]);
                    }
                }
            },
            None => {
                assert forall|j: int| #![trigger s[j]] 0 <= j < s.len() implies !p(s[j]) by {
                    if j > 0 {
                        assert(rest[j - 1] == s[j]);
                    }
                }
            },
        }
    }
}

/// An index at which `p` holds and before which it does not is the one
/// `first_where` gives.
pub proof fn lemma_first_where_at<T>(s: Seq<T>, p: spec_fn(T) -> bool, i: int)
    requires
        0 <= i < s.len(),
        p(s[i]),
        forall|j: int| #![trigger s[j]] 0 <= j < i ==> !p(s[j]),
    ensures
        first_where(s, p) == Some(i),
{
    lemma_first_where(s, p);
}

/// Where `p` holds nowhere, `first_where` gives nothing.
pub proof fn lemma_first_where_none<T>(s: Seq<T>, p: spec_fn(T) -> bool)
    requires
        forall|j: int| #![trigger s[j]] 0 <= j < s.len() ==> !p(s[j]),
    ensures
        first_where(s, p) is None,
{
    lemma_first_where(s, p);
}

/// Number of elements of `s` for which `p` holds.
pub open spec fn count_where<T>(s: Seq<T>, p: spec_fn(T) -> bool) -> nat
    decreases s.len(),
{
    if s.len() == 0 {
        0
    } else {
        count_where(s.drop_last(), p) + if p(s.last()) {
            1nat
        } else {
            0nat
        }
    }
}

/// Counting over a prefix one longer adds the element at its end.
pub proof fn lemma_count_where_step<T>(s: Seq<T>, p: spec_fn(T) -> bool, i: int)
    requires
        0 <= i < s.len(),
    ensures
        count_where(s.take(i + 1), p) == count_where(s.take(i), p) + if p(s[i]) {
            1nat
        } else {
            0nat
        },
{
    assert(s.take(i + 1).drop_last() == s.take(i));
}

/// A count is at most the length, and is zero exactly when `p` holds nowhere.
pub proof fn lemma_count_where_bounds<T>(s: Seq<T>, p: spec_fn(T) -> bool)
    ensures
        count_where(s, p) <= s.len(),
        count_where(s, p) == 0 <==> (forall|j: int| #![trigger s[j]] 0 <= j < s.len() ==> !p(s[j])),
    decreases s.len(),
{
    if s.len() > 0 {
        let rest = s.drop_last();
        lemma_count_where_bounds(rest, p);
        assert(forall|j: int| 0 <= j < rest.len() ==> rest[j] == s[j]);
        if count_where(s, p) == 0 {
            assert forall|j: int| #![trigger s[j]] 0 <= j < s.len() implies !p(s[j]) by {
                if j < rest.len() {
                    assert(rest[j] == s[j]);
                }
            }
        }
        if forall|j: int| #![trigger s[j]] 0 <= j < s.len() ==> !p(s[j]) {
            assert(!p(s[s.len() - 1]));
            assert forall|j: int| #![trigger rest[j]] 0 <= j < rest.len() implies !p(rest[j]) by {
                assert(rest[j] == s[j]);
            }
        }
    }
}

/// A prefix holds no more elements for which `p` holds than the whole.
pub proof fn lemma_count_where_prefix<T>(s: Seq<T>, p: spec_fn(T) -> bool, i: int)
    requires
        0 <= i <= s.len(),
    ensures
        count_where(s.take(i), p) <= count_where(s, p),
    decreases s.len() - i,
{
    if i < s.len() {
        lemma_count_where_step(s, p, i);
        lemma_count_where_prefix(s, p, i + 1);
    } else {
        assert(s.take(i) == s);
    }
}

/// What `f` makes of each element of `s`, strung together in the order of `s`.
pub open spec fn gather<A, B>(s: Seq<A>, f: spec_fn(A) -> Seq<B>) -> Seq<B>
    decreases s.len(),
{
    if s.len() == 0 {
        Seq::empty()
    } else {
        gather(s.drop_last(), f) + f(s.last())
    }
}

/// Gathering over a prefix one longer adds what `f` makes of the element at its end.
pub proof fn lemma_gather_step<A, B>(s: Seq<A>, f: spec_fn(A) -> Seq<B>, i: int)
    requires
        0 <= i < s.len(),
    ensures
        gather(s.take(i + 1), f) == gather(s.take(i), f) + f(s[i]),
{
    assert(s.take(i + 1).drop_last() == s.take(i));
}

/// Every element gathered was made by `f` of some element of `s`.
pub proof fn lemma_gather_member<A, B>(s: Seq<A>, f: spec_fn(A) -> Seq<B>, k: int) -> (at: (
    int,
    int,
))
    requires
        0 <= k < gather(s, f).len(),
    ensures
        0 <= at.0 < s.len(),
        0 <= at.1 < f(s[at.0]).len(),
        f(s[at.0])[at.1] == gather(s, f)[k],
    decreases s.len(),
{
    let rest = gather(s.drop_last(), f);
    if k < rest.len() {
        let at = lemma_gather_member(s.drop_last(), f, k);
        assert(s.drop_last()[at.0] == s[at.0]);
        at
    } else {
        (s.len() - 1, k - rest.len())
    }
}

/// Two sequences of equal length in which `p` holds at the same places
/// have as many elements for which `p` holds.
pub proof fn lemma_count_where_alike<T>(a: Seq<T>, b: Seq<T>, p: spec_fn(T) -> bool)
    requires
        a.len() == b.len(),
        forall|i: int| 0 <= i < a.len() ==> p(#[trigger] a[i]) == p(b[i]),
    ensures
        count_where(a, p) == count_where(b, p),
    decreases a.len(),
{
    if a.len() > 0 {
        assert(forall|i: int| 0 <= i < a.len() - 1 ==> a.drop_last()[i] == a[i]);
        assert(forall|i: int| 0 <= i < b.len() - 1 ==> b.drop_last()[i] == b[i]);
        assert forall|i: int| 0 <= i < a.drop_last().len() implies p(#[trigger] a.drop_last()[i])
            == p(b.drop_last()[i]) by {
            assert(p(a[i]) == p(b[i]));
        }
        lemma_count_where_alike(a.drop_last(), b.drop_last(), p);
        assert(p(a[a.len() - 1]) == p(b[a.len() - 1]));
    }
}

} // verus!
