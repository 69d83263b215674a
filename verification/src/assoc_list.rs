//! A small association list: a vector of key/value pairs with distinct keys,
//! viewed as a finite map from key views to values. It stands in for the hash
//! and tree maps that hold the engine's bookkeeping.
use vstd::prelude::*;

verus! {

/// Keys that can be compared and copied in executable code, exactly as their views.
pub trait KeyEq: View + Sized {
    fn key_eq(&self, other: &Self) -> (r: bool)
        ensures
            r == (self@ == other@);

    fn key_clone(&self) -> (r: Self)
        ensures
            r@ == self@;
}

impl KeyEq for u64 {
    fn key_eq(&self, other: &Self) -> (r: bool) {
        *self == *other
    }

    fn key_clone(&self) -> (r: Self) {
        *self
    }
}

impl<const N: usize> KeyEq for [u8; N] {
    fn key_eq(&self, other: &Self) -> (r: bool) {
        let mut i: usize = 0;
        while i < N
            invariant
                i <= N,
                self@.len() == N,
                other@.len() == N,
                forall|j: int| 0 <= j < i ==> self@[j] == other@[j],
            decreases N - i,
        {
            if self[i] != other[i] {
                return false;
            }
            i = i + 1;
        }
        assert(self@ =~= other@);
        true
    }

    fn key_clone(&self) -> (r: Self) {
        *self
    }
}

impl KeyEq for Vec<u8> {
    fn key_eq(&self, other: &Self) -> (r: bool) {
        if self.len() != other.len() {
            return false;
        }
        let mut i: usize = 0;
        while i < self.len()
            invariant
                i <= self@.len(),
                self@.len() == other@.len(),
                forall|j: int| 0 <= j < i ==> self@[j] == other@[j],
            decreases self@.len() - i,
        {
            if self[i] != other[i] {
                return false;
            }
            i = i + 1;
        }
        assert(self@ =~= other@);
        true
    }

    fn key_clone(&self) -> (r: Self) {
        let r = self.clone();
        assert(r@ =~= self@);
        r
    }
}

impl<A: KeyEq, B: KeyEq> KeyEq for (A, B) {
    fn key_eq(&self, other: &Self) -> (r: bool) {
        self.0.key_eq(&other.0) && self.1.key_eq(&other.1)
    }

    fn key_clone(&self) -> (r: Self) {
        (self.0.key_clone(), self.1.key_clone())
    }
}

impl KeyEq for String {
    fn key_eq(&self, other: &Self) -> (r: bool) {
        <String as PartialEq>::eq(self, other)
    }

    fn key_clone(&self) -> (r: Self) {
        self.clone()
    }
}

/// The map an entry sequence stands for: a later entry for a key wins.
pub open spec fn map_of<K: View, V>(s: Seq<(K, V)>) -> Map<K::V, V>
    decreases s.len(),
{
    if s.len() == 0 {
        Map::empty()
    } else {
        map_of(s.drop_last()).insert(s.last().0@, s.last().1)
    }
}

/// Index of the last entry whose key is `k`, or -1.
pub open spec fn last_index<K: View, V>(s: Seq<(K, V)>, k: K::V) -> int
    decreases s.len(),
{
    if s.len() == 0 {
        -1
    } else if s.last().0@ == k {
        s.len() - 1
    } else {
        last_index(s.drop_last(), k)
    }
}

/// No two entries share a key.
pub open spec fn distinct_keys<K: View, V>(s: Seq<(K, V)>) -> bool {
    forall|i: int, j: int| 0 <= i < s.len() && 0 <= j < s.len() && i != j ==> s[i].0@ != s[j].0@
}

pub proof fn lemma_last_index<K: View, V>(s: Seq<(K, V)>, k: K::V)
    ensures
        -1 <= last_index(s, k) < s.len(),
        last_index(s, k) >= 0 ==> s[last_index(s, k)].0@ == k,
        forall|j: int| last_index(s, k) < j < s.len() ==> s[j].0@ != k,
    decreases s.len(),
{
    if s.len() > 0 && s.last().0@ != k {
        let t = s.drop_last();
        lemma_last_index(t, k);
        assert forall|j: int| last_index(s, k) < j < s.len() implies s[j].0@ != k by {
            if j < s.len() - 1 {
                assert(s[j] == t[j]);
            }
        }
    }
}

pub proof fn lemma_map_of<K: View, V>(s: Seq<(K, V)>, k: K::V)
    ensures
        map_of(s).dom().finite(),
        map_of(s).contains_key(k) <==> last_index(s, k) >= 0,
        last_index(s, k) >= 0 ==> map_of(s)[k] == s[last_index(s, k)].1,
    decreases s.len(),
{
    if s.len() > 0 {
        let t = s.drop_last();
        lemma_map_of(t, k);
        lemma_last_index(t, k);
        if s.last().0@ != k && last_index(t, k) >= 0 {
            assert(s[last_index(t, k)] == t[last_index(t, k)]);
        }
    }
}

/// With distinct keys, the entry at `i` is the last one for its key.
pub proof fn lemma_distinct_last_index<K: View, V>(s: Seq<(K, V)>, i: int)
    requires
        distinct_keys(s),
        0 <= i < s.len(),
    ensures
        last_index(s, s[i].0@) == i,
        map_of(s).contains_key(s[i].0@),
        map_of(s)[s[i].0@] == s[i].1,
{
    lemma_last_index(s, s[i].0@);
    lemma_map_of(s, s[i].0@);
}

pub proof fn lemma_map_of_len<K: View, V>(s: Seq<(K, V)>)
    requires
        distinct_keys(s),
    ensures
        map_of(s).dom().finite(),
        map_of(s).len() == s.len(),
    decreases s.len(),
{
    if s.len() > 0 {
        let t = s.drop_last();
        assert(distinct_keys(t));
        lemma_map_of_len(t);
        lemma_map_of(t, s.last().0@);
        lemma_last_index(t, s.last().0@);
        if last_index(t, s.last().0@) >= 0 {
            assert(s[last_index(t, s.last().0@)].0@ == s[s.len() - 1].0@);
        }
    }
}

pub proof fn lemma_map_of_update<K: View, V>(s: Seq<(K, V)>, i: int, e: (K, V))
    requires
        0 <= i < s.len(),
        s[i].0@ == e.0@,
        forall|j: int| i < j < s.len() ==> s[j].0@ != e.0@,
    ensures
        map_of(s.update(i, e)) == map_of(s).insert(e.0@, e.1),
    decreases s.len(),
{
    let u = s.update(i, e);
    if i == s.len() - 1 {
        assert(u.drop_last() =~= s.drop_last());
        assert(map_of(u) =~= map_of(s).insert(e.0@, e.1));
    } else {
        assert(u.drop_last() =~= s.drop_last().update(i, e));
        lemma_map_of_update(s.drop_last(), i, e);
        assert(map_of(u) =~= map_of(s).insert(e.0@, e.1));
    }
}

pub proof fn lemma_map_of_remove<K: View, V>(s: Seq<(K, V)>, k: K::V)
    ensures
        map_of(s.filter(|e: (K, V)| e.0@ != k)) == map_of(s).remove(k),
    decreases s.len(),
{
    reveal_with_fuel(Seq::<_>::filter, 1);
    if s.len() == 0 {
        assert(map_of(s).remove(k) =~= Map::empty());
    } else {
        let t = s.drop_last();
        lemma_map_of_remove(t, k);
        assert(s.filter(|e: (K, V)| e.0@ != k) == if s.last().0@ != k {
            t.filter(|e: (K, V)| e.0@ != k).push(s.last())
        } else {
            t.filter(|e: (K, V)| e.0@ != k)
        });
        if s.last().0@ != k {
            let f = t.filter(|e: (K, V)| e.0@ != k).push(s.last());
            assert(f.drop_last() =~= t.filter(|e: (K, V)| e.0@ != k));
            assert(map_of(f) =~= map_of(s).remove(k));
        } else {
            assert(map_of(t).remove(k) =~= map_of(s).remove(k));
        }
    }
}

/// A vector of key/value pairs with distinct keys.
#[derive(Debug)]
pub struct AssocList<K, V> {
    pub entries: Vec<(K, V)>,
}

impl<K: KeyEq, V> AssocList<K, V> {
    /// The map the list stands for.
    pub open spec fn view_map(&self) -> Map<K::V, V> {
        map_of(self.entries@)
    }

    /// Keys are distinct.
    pub open spec fn wf(&self) -> bool {
        distinct_keys(self.entries@)
    }

    /// An empty list.
    pub fn new() -> (r: Self)
        ensures
            r.wf(),
            r.view_map() == Map::<K::V, V>::empty(),
            r.entries@.len() == 0,
    {
        let r = AssocList { entries: Vec::new() };
        assert(r.view_map() =~= Map::<K::V, V>::empty());
        r
    }

    /// Number of keys.
    pub fn len(&self) -> (r: usize)
        requires
            self.wf(),
        ensures
            r == self.view_map().len(),
            r == self.entries@.len(),
    {
        proof {
            lemma_map_of_len(self.entries@);
        }
        self.entries.len()
    }

    /// Position of the entry for key `k`, if any.
    pub fn find(&self, k: &K) -> (r: Option<usize>)
        requires
            self.wf(),
        ensures
            r is None <==> !self.view_map().contains_key(k@),
            r is Some ==> r->0 < self.entries@.len() && self.entries@[r->0 as int].0@ == k@
                && self.view_map()[k@] == self.entries@[r->0 as int].1,
    {
        let mut i: usize = 0;
        while i < self.entries.len()
            invariant
                i <= self.entries@.len(),
                distinct_keys(self.entries@),
                forall|j: int| 0 <= j < i ==> self.entries@[j].0@ != k@,
            decreases self.entries@.len() - i,
        {
            if self.entries[i].0.key_eq(k) {
                proof {
                    lemma_distinct_last_index(self.entries@, i as int);
                }
                return Some(i);
            }
            i = i + 1;
        }
        proof {
            lemma_last_index(self.entries@, k@);
            lemma_map_of(self.entries@, k@);
        }
        None
    }

    /// Whether the list has no entries.
    pub fn is_empty(&self) -> (r: bool)
        requires
            self.wf(),
        ensures
            r == (self.view_map().len() == 0),
    {
        self.len() == 0
    }

    /// Whether the key has an entry.
    pub fn contains_key(&self, k: &K) -> (r: bool)
        requires
            self.wf(),
        ensures
            r == self.view_map().contains_key(k@),
    {
        self.find(k).is_some()
    }

    /// The value for key `k`, if any.
    pub fn get(&self, k: &K) -> (r: Option<&V>)
        requires
            self.wf(),
        ensures
            r is None <==> !self.view_map().contains_key(k@),
            r is Some ==> *r->0 == self.view_map()[k@],
    {
        match self.find(k) {
            Some(i) => Some(&self.entries[i].1),
            None => None,
        }
    }

    /// Set the value for key `k`, adding the key when it is new.
    pub fn insert(&mut self, k: K, v: V)
        requires
            old(self).wf(),
        ensures
            final(self).wf(),
            final(self).view_map() == old(self).view_map().insert(k@, v),
    {
        match self.find(&k) {
            Some(i) => {
                let ghost s = self.entries@;
                let ghost kv = k@;
                proof {
                    lemma_distinct_last_index(s, i as int);
                    lemma_last_index(s, kv);
                }
                self.entries.set(i, (k, v));
                proof {
                    lemma_map_of_update(s, i as int, self.entries@[i as int]);
                    assert(self.entries@ == s.update(i as int, self.entries@[i as int]));
                }
            },
            None => {
                let ghost s = self.entries@;
                proof {
                    lemma_last_index(s, k@);
                    lemma_map_of(s, k@);
                    assert forall|j: int| 0 <= j < s.len() implies s[j].0@ != k@ by {
                        if s[j].0@ == k@ {
                            lemma_distinct_last_index(s, j);
                        }
                    }
                }
                self.entries.push((k, v));
                assert(self.entries@.drop_last() =~= s);
            },
        }
    }

    /// Remove key `k`, returning its value if it had one.
    pub fn remove(&mut self, k: &K) -> (r: Option<V>)
        requires
            old(self).wf(),
        ensures
            final(self).wf(),
            final(self).view_map() == old(self).view_map().remove(k@),
            r is None <==> !old(self).view_map().contains_key(k@),
            r is Some ==> r->0 == old(self).view_map()[k@],
    {
        match self.find(k) {
            Some(i) => {
                let ghost s = self.entries@;
                proof {
                    lemma_distinct_last_index(s, i as int);
                }
                let e = self.entries.remove(i);
                proof {
                    assert forall|j: int| 0 <= j < s.len() && j != i implies s[j].0@ != k@ by {
                        if s[j].0@ == k@ {
                            assert(s[i as int].0@ == k@);
                        }
                    }
                    assert(self.entries@ =~= s.filter(|e: (K, V)| e.0@ != k@)) by {
                        lemma_filter_all_but(s, i as int, k@);
                    }
                    lemma_map_of_remove(s, k@);
                    assert forall|a: int, b: int|
                        0 <= a < self.entries@.len() && 0 <= b < self.entries@.len() && a != b implies self.entries@[a].0@
                        != self.entries@[b].0@ by {
                        let a2 = if a < i { a } else { a + 1 };
                        let b2 = if b < i { b } else { b + 1 };
                        assert(self.entries@[a] == s[a2]);
                        assert(self.entries@[b] == s[b2]);
                    }
                }
                Some(e.1)
            },
            None => {
                proof {
                    lemma_map_of(self.entries@, k@);
                    lemma_last_index(self.entries@, k@);
                    assert(self.entries@.filter(|e: (K, V)| e.0@ != k@) =~= self.entries@) by {
                        lemma_filter_none_removed(self.entries@, k@);
                    }
                    lemma_map_of_remove(self.entries@, k@);
                    assert(old(self).view_map().remove(k@) =~= old(self).view_map());
                }
                None
            },
        }
    }

    /// Replace the value at position `i`, keeping its key.
    pub fn set_value(&mut self, i: usize, v: V)
        requires
            old(self).wf(),
            i < old(self).entries@.len(),
        ensures
            final(self).wf(),
            final(self).view_map() == old(self).view_map().insert(old(self).entries@[i as int].0@, v),
            final(self).entries@.len() == old(self).entries@.len(),
            final(self).entries@[i as int].0@ == old(self).entries@[i as int].0@,
            final(self).entries@[i as int].1 == v,
            forall|j: int| 0 <= j < old(self).entries@.len() && j != i ==> final(self).entries@[j] == old(self).entries@[j],
    {
        let ghost s = self.entries@;
        proof {
            lemma_distinct_last_index(s, i as int);
            lemma_last_index(s, s[i as int].0@);
        }
        let k = self.entries[i].0.key_clone();
        self.entries.set(i, (k, v));
        proof {
            lemma_map_of_update(s, i as int, self.entries@[i as int]);
            assert(self.entries@ == s.update(i as int, self.entries@[i as int]));
        }
    }

    /// Replace the value at position `i`, keeping its key; the old value is returned.
    pub fn replace_value(&mut self, i: usize, v: V) -> (r: V)
        requires
            old(self).wf(),
            i < old(self).entries@.len(),
        ensures
            final(self).wf(),
            final(self).view_map() == old(self).view_map().insert(old(self).entries@[i as int].0@, v),
            r == old(self).entries@[i as int].1,
            final(self).entries@.len() == old(self).entries@.len(),
            final(self).entries@[i as int].0@ == old(self).entries@[i as int].0@,
            final(self).entries@[i as int].1 == v,
            forall|j: int| 0 <= j < old(self).entries@.len() && j != i ==> final(self).entries@[j] == old(self).entries@[j],
    {
        let ghost s = self.entries@;
        let (k, old_v) = self.entries.remove(i);
        self.entries.insert(i, (k, v));
        proof {
            assert forall|a: int, b: int|
                0 <= a < self.entries@.len() && 0 <= b < self.entries@.len() && a != b implies self.entries@[a].0@
                != self.entries@[b].0@ by {
                assert(self.entries@[a].0@ == s[a].0@);
                assert(self.entries@[b].0@ == s[b].0@);
            }
            lemma_distinct_last_index(s, i as int);
            lemma_last_index(s, s[i as int].0@);
            lemma_map_of_update(s, i as int, self.entries@[i as int]);
            assert(self.entries@ =~= s.update(i as int, self.entries@[i as int]));
        }
        old_v
    }

    /// The keys, in entry order.
    pub fn keys(&self) -> (r: Vec<K>)
        requires
            self.wf(),
        ensures
            r@.len() == self.entries@.len(),
            forall|i: int| 0 <= i < r@.len() ==> (#[trigger] r@[i])@ == self.entries@[i].0@,
    {
        let mut r: Vec<K> = Vec::new();
        let mut i: usize = 0;
        while i < self.entries.len()
            invariant
                i <= self.entries@.len(),
                r@.len() == i,
                forall|j: int| 0 <= j < i ==> (#[trigger] r@[j])@ == self.entries@[j].0@,
            decreases self.entries@.len() - i,
        {
            r.push(self.entries[i].0.key_clone());
            i = i + 1;
        }
        r
    }
}

/// Filtering out a key held only at `i` removes exactly position `i`.
pub proof fn lemma_filter_all_but<K: View, V>(s: Seq<(K, V)>, i: int, k: K::V)
    requires
        0 <= i < s.len(),
        s[i].0@ == k,
        forall|j: int| 0 <= j < s.len() && j != i ==> s[j].0@ != k,
    ensures
        s.filter(|e: (K, V)| e.0@ != k) =~= s.remove(i),
    decreases s.len(),
{
    reveal_with_fuel(Seq::<_>::filter, 1);
    let t = s.drop_last();
    if i == s.len() - 1 {
        lemma_filter_none_removed(t, k);
        assert(s.remove(i) =~= t);
    } else {
        lemma_filter_all_but(t, i, k);
        assert(s.remove(i) =~= t.remove(i).push(s.last()));
    }
}

/// Filtering out a key that no entry holds changes nothing.
pub proof fn lemma_filter_none_removed<K: View, V>(s: Seq<(K, V)>, k: K::V)
    requires
        forall|j: int| 0 <= j < s.len() ==> s[j].0@ != k,
    ensures
        s.filter(|e: (K, V)| e.0@ != k) =~= s,
    decreases s.len(),
{
    reveal_with_fuel(Seq::<_>::filter, 1);
    if s.len() > 0 {
        lemma_filter_none_removed(s.drop_last(), k);
        assert(s.drop_last().push(s.last()) =~= s);
    }
}


/// A key is in the map exactly when some entry carries it.
pub proof fn lemma_map_of_contains<K: View, V>(s: Seq<(K, V)>, k: K::V)
    ensures
        map_of(s).contains_key(k) <==> exists|i: int| 0 <= i < s.len() && #[trigger] s[i].0@ == k,
{
    lemma_map_of(s, k);
    lemma_last_index(s, k);
    if exists|i: int| 0 <= i < s.len() && #[trigger] s[i].0@ == k {
        let i = choose|i: int| 0 <= i < s.len() && #[trigger] s[i].0@ == k;
        assert(last_index(s, k) >= i);
    }
}

/// Entries that keep their keys and relate their values by `rel` give maps
/// with the same keys whose values are related by `rel`.
pub proof fn lemma_map_of_pointwise<K: View, V>(s: Seq<(K, V)>, t: Seq<(K, V)>, rel: spec_fn(V, V) -> bool)
    requires
        distinct_keys(s),
        s.len() == t.len(),
        forall|i: int| 0 <= i < s.len() ==> #[trigger] t[i].0@ == s[i].0@ && rel(s[i].1, t[i].1),
    ensures
        distinct_keys(t),
        map_of(t).dom() == map_of(s).dom(),
        forall|k: K::V| #[trigger] map_of(s).contains_key(k) ==> rel(map_of(s)[k], map_of(t)[k]),
{
    assert forall|a: int, b: int| 0 <= a < t.len() && 0 <= b < t.len() && a != b implies t[a].0@ != t[b].0@ by {
        assert(t[a].0@ == s[a].0@);
        assert(t[b].0@ == s[b].0@);
    }
    assert forall|k: K::V| map_of(t).contains_key(k) == map_of(s).contains_key(k) by {
        lemma_map_of_contains(s, k);
        lemma_map_of_contains(t, k);
        if exists|i: int| 0 <= i < s.len() && #[trigger] s[i].0@ == k {
            let i = choose|i: int| 0 <= i < s.len() && #[trigger] s[i].0@ == k;
            assert(t[i].0@ == k);
        }
        if exists|i: int| 0 <= i < t.len() && #[trigger] t[i].0@ == k {
            let i = choose|i: int| 0 <= i < t.len() && #[trigger] t[i].0@ == k;
            assert(s[i].0@ == k);
        }
    }
    assert(map_of(t).dom() =~= map_of(s).dom());
    assert forall|k: K::V| #[trigger] map_of(s).contains_key(k) implies rel(map_of(s)[k], map_of(t)[k]) by {
        lemma_map_of_contains(s, k);
        let i = choose|i: int| 0 <= i < s.len() && #[trigger] s[i].0@ == k;
        lemma_distinct_last_index(s, i);
        assert(t[i].0@ == k);
        lemma_distinct_last_index(t, i);
    }
}

} // verus!
