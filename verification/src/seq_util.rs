//! Specification helpers over sequences: searches, counts and index-based filters.
use vstd::prelude::*;

verus! {

/// The elements of `s[0..k]` whose index satisfies `f`, in order.
pub open spec fn retain_idx<T>(s: Seq<T>, k: int, f: spec_fn(int) -> bool) -> Seq<T>
    decreases k,
{
    if k <= 0 {
        Seq::empty()
    } else if f(k - 1) {
        retain_idx(s, k - 1, f).push(s[k - 1])
    } else {
        retain_idx(s, k - 1, f)
    }
}

/// Number of indices `j < k` that satisfy `f`.
pub open spec fn count_idx(k: int, f: spec_fn(int) -> bool) -> nat
    decreases k,
{
    if k <= 0 {
        0
    } else if f(k - 1) {
        count_idx(k - 1, f) + 1
    } else {
        count_idx(k - 1, f)
    }
}

/// The last element of `s` that satisfies `p`.
pub open spec fn last_match<T>(s: Seq<T>, p: spec_fn(T) -> bool) -> Option<T>
    decreases s.len(),
{
    if s.len() == 0 {
        None
    } else if p(s.last()) {
        Some(s.last())
    } else {
        last_match(s.drop_last(), p)
    }
}

/// The first element of `s` that satisfies `p`.
pub open spec fn first_match<T>(s: Seq<T>, p: spec_fn(T) -> bool) -> Option<T>
    decreases s.len(),
{
    if s.len() == 0 {
        None
    } else if p(s[0]) {
        Some(s[0])
    } else {
        first_match(s.subrange(1, s.len() as int), p)
    }
}

/// The last match is the element at some position `k` that satisfies `p`,
/// with no element after it satisfying `p`; there is none exactly when no
/// element satisfies `p`.
pub proof fn lemma_last_match_is_last<T>(s: Seq<T>, p: spec_fn(T) -> bool) -> (k: int)
    ensures
        last_match(s, p) is Some ==> 0 <= k < s.len() && last_match(s, p) == Some(s[k]) && p(s[k]) && forall|j: int|
            k < j < s.len() ==> !p(#[trigger] s[j]),
        last_match(s, p) is None ==> forall|j: int| 0 <= j < s.len() ==> !p(#[trigger] s[j]),
    decreases s.len(),
{
    if s.len() == 0 {
        0
    } else if p(s.last()) {
        s.len() - 1
    } else {
        let t = s.drop_last();
        let k = lemma_last_match_is_last(t, p);
        assert forall|j: int| 0 <= j < t.len() implies #[trigger] s[j] == t[j] by {}
        assert(s[s.len() - 1] == s.last());
        k
    }
}

/// The first match is the element at some position `k` that satisfies `p`,
/// with no element before it satisfying `p`; there is none exactly when no
/// element satisfies `p`.
pub proof fn lemma_first_match_is_first<T>(s: Seq<T>, p: spec_fn(T) -> bool) -> (k: int)
    ensures
        first_match(s, p) is Some ==> 0 <= k < s.len() && first_match(s, p) == Some(s[k]) && p(s[k]) && forall|j: int|
            0 <= j < k ==> !p(#[trigger] s[j]),
        first_match(s, p) is None ==> forall|j: int| 0 <= j < s.len() ==> !p(#[trigger] s[j]),
    decreases s.len(),
{
    if s.len() == 0 {
        0
    } else if p(s[0]) {
        0
    } else {
        let t = s.subrange(1, s.len() as int);
        let k = lemma_first_match_is_first(t, p);
        assert forall|j: int| 0 <= j < t.len() implies #[trigger] t[j] == s[j + 1] by {}
        assert forall|j: int| 0 < j < s.len() implies s[j] == t[j - 1] by {}
        k + 1
    }
}

pub proof fn lemma_count_idx_le(k: int, f: spec_fn(int) -> bool)
    ensures
        k >= 0 ==> count_idx(k, f) <= k,
    decreases k,
{
    if k > 0 {
        lemma_count_idx_le(k - 1, f);
    }
}

/// A retained element is an element of the sequence at an earlier index, and
/// retained elements keep their relative order.
pub proof fn lemma_retain_idx_sub<T>(s: Seq<T>, k: int, f: spec_fn(int) -> bool)
    requires
        0 <= k <= s.len(),
    ensures
        retain_idx(s, k, f).len() <= k,
        forall|i: int|
            0 <= i < retain_idx(s, k, f).len() ==> exists|j: int|
                0 <= j < k && f(j) && #[trigger] retain_idx(s, k, f)[i] == s[j],
    decreases k,
{
    if k > 0 {
        lemma_retain_idx_sub(s, k - 1, f);
        let r = retain_idx(s, k, f);
        let r0 = retain_idx(s, k - 1, f);
        assert forall|i: int| 0 <= i < r.len() implies exists|j: int| 0 <= j < k && f(j) && #[trigger] r[i] == s[j] by {
            if i < r0.len() {
                assert(r[i] == r0[i]);
                let j = choose|j: int| 0 <= j < k - 1 && f(j) && #[trigger] r0[i] == s[j];
                assert(0 <= j < k && f(j) && r[i] == s[j]);
            } else {
                assert(r[i] == s[k - 1]);
            }
        }
    }
}

/// Retaining every index keeps the whole prefix.
pub proof fn lemma_retain_idx_all<T>(s: Seq<T>, k: int, f: spec_fn(int) -> bool)
    requires
        0 <= k <= s.len(),
        forall|j: int| 0 <= j < k ==> #[trigger] f(j),
    ensures
        retain_idx(s, k, f) == s.subrange(0, k),
    decreases k,
{
    if k > 0 {
        lemma_retain_idx_all(s, k - 1, f);
        assert(s.subrange(0, k) =~= s.subrange(0, k - 1).push(s[k - 1]));
    } else {
        assert(s.subrange(0, 0) =~= Seq::<T>::empty());
    }
}

/// `last_match` over a one-longer prefix.
pub proof fn lemma_last_match_take<T>(s: Seq<T>, i: int, p: spec_fn(T) -> bool)
    requires
        0 <= i < s.len(),
    ensures
        last_match(s.take(i + 1), p) == (if p(s[i]) {
            Some(s[i])
        } else {
            last_match(s.take(i), p)
        }),
{
    assert(s.take(i + 1).drop_last() =~= s.take(i));
    assert(s.take(i + 1).last() == s[i]);
}

/// `first_match` skips a leading element that fails the predicate.
pub proof fn lemma_first_match_skip<T>(s: Seq<T>, i: int, p: spec_fn(T) -> bool)
    requires
        0 <= i < s.len(),
        !p(s[i]),
    ensures
        first_match(s.subrange(i, s.len() as int), p) == first_match(s.subrange(i + 1, s.len() as int), p),
{
    let t = s.subrange(i, s.len() as int);
    assert(t[0] == s[i]);
    assert(t.subrange(1, t.len() as int) =~= s.subrange(i + 1, s.len() as int));
}

/// `first_match` of a sequence starting with a matching element.
pub proof fn lemma_first_match_hit<T>(s: Seq<T>, i: int, p: spec_fn(T) -> bool)
    requires
        0 <= i < s.len(),
        p(s[i]),
    ensures
        first_match(s.subrange(i, s.len() as int), p) == Some(s[i]),
{
    let t = s.subrange(i, s.len() as int);
    assert(t[0] == s[i]);
}

/// `filter` over a one-longer prefix.
pub proof fn lemma_filter_take<T>(s: Seq<T>, i: int, p: spec_fn(T) -> bool)
    requires
        0 <= i < s.len(),
    ensures
        s.take(i + 1).filter(p) == (if p(s[i]) {
            s.take(i).filter(p).push(s[i])
        } else {
            s.take(i).filter(p)
        }),
{
    reveal_with_fuel(Seq::<_>::filter, 1);
    assert(s.take(i + 1).drop_last() =~= s.take(i));
    assert(s.take(i + 1).last() == s[i]);
}

/// `count_idx` of a predicate that holds nowhere below `k` is zero.
pub proof fn lemma_count_idx_zero(k: int, f: spec_fn(int) -> bool)
    requires
        forall|j: int| 0 <= j < k ==> !#[trigger] f(j),
    ensures
        count_idx(k, f) == 0,
    decreases k,
{
    if k > 0 {
        lemma_count_idx_zero(k - 1, f);
    }
}


/// `last_match` finds something exactly when some element satisfies `p`,
/// and what it finds is an element of `s` that satisfies `p`.
pub proof fn lemma_last_match_some<T>(s: Seq<T>, p: spec_fn(T) -> bool)
    ensures
        last_match(s, p) is Some <==> exists|i: int| 0 <= i < s.len() && #[trigger] p(s[i]),
        last_match(s, p) is Some ==> exists|i: int| 0 <= i < s.len() && #[trigger] s[i] == last_match(s, p)->0
            && p(s[i]),
    decreases s.len(),
{
    if s.len() > 0 {
        let t = s.drop_last();
        lemma_last_match_some(t, p);
        if p(s.last()) {
            assert(s[s.len() - 1] == s.last());
        } else {
            if exists|i: int| 0 <= i < s.len() && #[trigger] p(s[i]) {
                let i = choose|i: int| 0 <= i < s.len() && #[trigger] p(s[i]);
                assert(i < s.len() - 1);
                assert(t[i] == s[i]);
            }
            if last_match(t, p) is Some {
                let i = choose|i: int| 0 <= i < t.len() && #[trigger] t[i] == last_match(t, p)->0 && p(t[i]);
                assert(s[i] == t[i]);
            }
        }
    }
}


/// Every element kept by `filter` is an element of the sequence satisfying the predicate.
pub proof fn lemma_filter_sub<T>(s: Seq<T>, p: spec_fn(T) -> bool)
    ensures
        forall|i: int| 0 <= i < s.filter(p).len() ==> s.contains(#[trigger] s.filter(p)[i]) && p(s.filter(p)[i]),
    decreases s.len(),
{
    reveal_with_fuel(Seq::<_>::filter, 1);
    if s.len() > 0 {
        let t = s.drop_last();
        lemma_filter_sub(t, p);
        assert forall|i: int| 0 <= i < s.filter(p).len() implies s.contains(#[trigger] s.filter(p)[i]) && p(s.filter(p)[i]) by {
            if p(s.last()) && i == s.filter(p).len() - 1 {
                assert(s.filter(p)[i] == s.last());
                assert(s[s.len() - 1] == s.last());
            } else {
                assert(s.filter(p)[i] == t.filter(p)[i]);
                let j = choose|j: int| 0 <= j < t.len() && t[j] == t.filter(p)[i];
                assert(s[j] == t[j]);
            }
        }
    }
}


/// Filtering by a predicate that every element satisfies keeps the sequence.
pub proof fn lemma_filter_all<T>(s: Seq<T>, p: spec_fn(T) -> bool)
    requires
        forall|i: int| 0 <= i < s.len() ==> #[trigger] p(s[i]),
    ensures
        s.filter(p) == s,
    decreases s.len(),
{
    reveal_with_fuel(Seq::<_>::filter, 1);
    if s.len() > 0 {
        let t = s.drop_last();
        assert forall|i: int| 0 <= i < t.len() implies #[trigger] p(t[i]) by {
            assert(t[i] == s[i]);
        }
        lemma_filter_all(t, p);
        assert(p(s[s.len() - 1]));
        assert(t.push(s.last()) =~= s);
    } else {
        assert(s.filter(p) =~= s);
    }
}

} // verus!
