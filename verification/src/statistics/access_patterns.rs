//! The access history behind access-pattern statistics: the recent key
//! accesses in order, with their timestamps, and how often each key occurs
//! among them, bounded by a maximum history size.
use vstd::prelude::*;

use std::collections::VecDeque;

use crate::assoc_list::{AssocList, distinct_keys, lemma_distinct_last_index, lemma_map_of_contains, lemma_map_of_len, map_of};
use crate::seq_util::{count_idx, first_match, lemma_first_match_hit, lemma_first_match_skip};
use crate::storage_engine::lib::generate_timestamp;
use vstd::string::StrSliceExecFns;

verus! {

/// Whether `c` is one of the ASCII digits `0` to `9`.
pub open spec fn is_digit(c: char) -> bool {
    '0' as int <= c as int <= '9' as int
}

/// Whether `s` is made of ASCII digits only.
pub open spec fn all_digits(s: Seq<char>) -> bool {
    forall|i: int| 0 <= i < s.len() ==> is_digit(#[trigger] s[i])
}

/// The value of a string of decimal digits.
pub open spec fn digits_value(s: Seq<char>) -> int
    decreases s.len(),
{
    if s.len() == 0 {
        0
    } else {
        digits_value(s.drop_last()) * 10 + (s.last() as int - '0' as int)
    }
}

/// The integer written by `s`: an optional `+` or `-` sign followed by one
/// or more decimal digits, and nothing else.
pub open spec fn signed_decimal(s: Seq<char>) -> Option<int> {
    if s.len() > 0 && (s[0] == '-' || s[0] == '+') {
        let body = s.drop_first();
        if body.len() > 0 && all_digits(body) {
            Some(
                if s[0] == '-' {
                    -digits_value(body)
                } else {
                    digits_value(body)
                },
            )
        } else {
            None
        }
    } else if s.len() > 0 && all_digits(s) {
        Some(digits_value(s))
    } else {
        None
    }
}

/// The number `str::parse::<i64>` reads from a key: the integer the text
/// writes, when it fits in 64 bits.
pub open spec fn parsed_i64(s: Seq<char>) -> Option<i64> {
    match signed_decimal(s) {
        Some(v) => if i64::MIN <= v <= i64::MAX {
            Some(v as i64)
        } else {
            None
        },
        None => None,
    }
}

/// `str::parse::<i64>`, kept when it succeeds: as documented, it accepts an
/// optional sign followed by decimal digits whose value fits in an `i64`,
/// and refuses every other text.
#[verifier::external_body]
fn parse_i64(s: &str) -> (r: Option<i64>)
    ensures
        r == parsed_i64(s@),
{
    s.parse::<i64>().ok()
}

/// The number of positions, up to the shorter length, where `a` and `b`
/// hold different characters.
pub open spec fn differing_chars(a: Seq<char>, b: Seq<char>) -> nat {
    let n = if a.len() <= b.len() { a.len() } else { b.len() };
    count_idx(n as int, char_differs(a, b))
}

/// Whether `a` and `b` hold different characters at a position.
pub open spec fn char_differs(a: Seq<char>, b: Seq<char>) -> spec_fn(int) -> bool {
    |i: int| a[i] != b[i]
}

/// Whether key `b` follows key `a` in sequence: two numbers one apart, or
/// else texts whose UTF-8 lengths differ by at most one and whose characters
/// differ in at most two places.
pub open spec fn sequential_keys(a: Seq<char>, b: Seq<char>) -> bool {
    match (parsed_i64(a), parsed_i64(b)) {
        (Some(x), Some(y)) => y - x == 1 || x - y == 1,
        _ => {
            let la = (vstd::utf8::encode_utf8(a).len() as usize) as int;
            let lb = (vstd::utf8::encode_utf8(b).len() as usize) as int;
            (la - lb <= 1 && lb - la <= 1) && differing_chars(a, b) <= 2
        },
    }
}

/// Following in sequence does not depend on the order of the two keys; a
/// numeric key never follows itself, and any other key always does.
pub proof fn lemma_sequential_keys(a: Seq<char>, b: Seq<char>)
    ensures
        sequential_keys(a, b) == sequential_keys(b, a),
        parsed_i64(a) is Some ==> !sequential_keys(a, a),
        parsed_i64(a) is None ==> sequential_keys(a, a),
{
    assert(char_differs(a, b) =~= char_differs(b, a));
    assert(differing_chars(a, b) == differing_chars(b, a));
    crate::seq_util::lemma_count_idx_zero(a.len() as int, char_differs(a, a));
}

/// Whether key `key2` follows key `key1` in sequence (see `sequential_keys`).
pub fn is_sequential_key(key1: &str, key2: &str) -> (r: bool)
    ensures
        r == sequential_keys(key1@, key2@),
{
    match (parse_i64(key1), parse_i64(key2)) {
        (Some(num1), Some(num2)) => {
            let d: i128 = num2 as i128 - num1 as i128;
            d == 1 || d == -1
        },
        _ => {
            let l1 = key1.len();
            let l2 = key2.len();
            let diff = if l1 >= l2 {
                l1 - l2
            } else {
                l2 - l1
            };
            if diff > 1 {
                return false;
            }
            let n1 = key1.unicode_len();
            let n2 = key2.unicode_len();
            let n = if n1 <= n2 {
                n1
            } else {
                n2
            };
            let ghost f = char_differs(key1@, key2@);
            let mut count: usize = 0;
            let mut i: usize = 0;
            while i < n
                invariant
                    i <= n,
                    n == (if key1@.len() <= key2@.len() { key1@.len() } else { key2@.len() }),
                    f == char_differs(key1@, key2@),
                    count == count_idx(i as int, f),
                    count <= i,
                decreases n - i,
            {
                let c1 = key1.get_char(i);
                let c2 = key2.get_char(i);
                assert(f(i as int) == (c1 != c2));
                assert(count_idx(i + 1, f) == if f(i as int) { count_idx(i as int, f) + 1 } else { count_idx(i as int, f) });
                if c1 != c2 {
                    count = count + 1;
                }
                i = i + 1;
            }
            count <= 2
        },
    }
}

/// Whether consecutive accesses `i` and `i + 1` of `h` are to keys in sequence.
pub open spec fn sequential_step(h: Seq<AccessView>) -> spec_fn(int) -> bool {
    |i: int| sequential_keys(h[i].0, h[i + 1].0)
}

/// The number of consecutive access pairs of `h` whose keys are in sequence.
pub open spec fn sequential_pairs_of(h: Seq<AccessView>) -> nat {
    count_idx(h.len() - 1, sequential_step(h))
}

/// The time from access `i` of `h` to the next one (0 when the clock went back).
pub open spec fn gap(h: Seq<AccessView>, i: int) -> int {
    if h[i + 1].1 >= h[i].1 {
        h[i + 1].1 - h[i].1
    } else {
        0
    }
}

/// The sum of the first `n` gaps of `h`.
pub open spec fn gap_sum(h: Seq<AccessView>, n: int) -> int
    decreases n,
{
    if n <= 0 {
        0
    } else {
        gap_sum(h, n - 1) + gap(h, n - 1)
    }
}

/// An access as the statistics see it: the key's characters and the time.
pub type AccessView = (Seq<char>, u64);

/// Whether an access is to key `k`.
pub open spec fn is_key(k: Seq<char>) -> spec_fn(AccessView) -> bool {
    |e: AccessView| e.0 == k
}

/// How often key `k` occurs in history `h`.
pub open spec fn occurrences(h: Seq<AccessView>, k: Seq<char>) -> nat {
    h.filter(is_key(k)).len()
}

/// The history after an access `e`: `e` is appended, and when the history
/// then holds more than `max` accesses the oldest one leaves.
pub open spec fn after_access(h: Seq<AccessView>, e: AccessView, max: nat) -> Seq<AccessView> {
    if h.len() + 1 > max {
        h.push(e).drop_first()
    } else {
        h.push(e)
    }
}

/// The view of a stored access.
pub open spec fn access_view(e: (String, u64)) -> AccessView {
    (e.0@, e.1)
}

/// The recent key accesses in order, with timestamps, and how often each
/// key occurs among them.
#[derive(Debug)]
pub struct AccessLog {
    /// (key, timestamp) of each access, oldest first
    access_history: VecDeque<(String, u64)>,
    /// How often each key occurs in the history
    key_frequencies: AssocList<String, u64>,
    /// The most accesses kept
    max_history_size: usize,
    /// Creation time
    created_at: u64,
    /// Time of the last access or clearing
    last_updated: u64,
}

impl AccessLog {
    /// The accesses, oldest first.
    pub closed spec fn history(&self) -> Seq<AccessView> {
        self.access_history@.map_values(|e: (String, u64)| access_view(e))
    }

    /// The frequency of each key.
    pub closed spec fn freqs(&self) -> Map<Seq<char>, u64> {
        self.key_frequencies.view_map()
    }

    /// The most accesses kept.
    pub closed spec fn max_size(&self) -> nat {
        self.max_history_size as nat
    }

    /// Creation time.
    pub closed spec fn created(&self) -> u64 {
        self.created_at
    }

    /// Time of the last access or clearing.
    pub closed spec fn updated(&self) -> u64 {
        self.last_updated
    }

    /// The frequencies count the keys of the history: a key has an entry
    /// exactly when it occurs, with the number of its occurrences.
    pub closed spec fn inv(&self) -> bool {
        &&& self.key_frequencies.wf()
        &&& forall|k: Seq<char>| #[trigger] self.freqs().contains_key(k) <==> occurrences(self.history(), k) > 0
        &&& forall|k: Seq<char>| #[trigger] self.freqs().contains_key(k) ==> self.freqs()[k] == occurrences(self.history(), k)
    }

    /// An empty log keeping at most `max_history_size` accesses, created now.
    pub fn new(max_history_size: usize) -> (r: Self)
        ensures
            r.inv(),
            r.history() == Seq::<AccessView>::empty(),
            r.max_size() == max_history_size,
    {
        let r = Self {
            access_history: VecDeque::with_capacity(max_history_size),
            key_frequencies: AssocList::new(),
            max_history_size,
            created_at: generate_timestamp(),
            last_updated: generate_timestamp(),
        };
        assert(r.history() =~= Seq::<AccessView>::empty());
        r
    }

    /// Record an access to `key` at `timestamp`: it joins the history (the
    /// oldest access leaves when the history grows past its maximum) and
    /// the frequencies follow.
    pub fn record_access_at(&mut self, key: &str, timestamp: u64)
        requires
            old(self).inv(),
            old(self).history().len() < usize::MAX,
        ensures
            final(self).inv(),
            final(self).history() == after_access(old(self).history(), (key@, timestamp), old(self).max_size()),
            final(self).max_size() == old(self).max_size(),
            final(self).created() == old(self).created(),
            final(self).updated() == timestamp,
    {
        let ghost h0 = self.history();
        let ghost f0 = self.freqs();
        let ghost e: AccessView = (key@, timestamp);
        assert(forall|k: Seq<char>| #[trigger] f0.contains_key(k) <==> occurrences(h0, k) > 0);
        assert(forall|k: Seq<char>| #[trigger] f0.contains_key(k) ==> f0[k] == occurrences(h0, k));
        let k = key.to_owned();
        let count: u64 = match self.key_frequencies.get(&k) {
            Some(c) => *c,
            None => 0,
        };
        proof {
            h0.lemma_filter_push(e, is_key(key@));
            assert forall|j: Seq<char>| #![trigger occurrences(h0.push(e), j)] j != key@ implies occurrences(h0.push(e), j) == occurrences(h0, j) by {
                h0.lemma_filter_push(e, is_key(j));
            }
            if !f0.contains_key(key@) {
                assert(occurrences(h0, key@) == 0);
            }
            h0.lemma_filter_len(is_key(key@));
        }
        assert(count == occurrences(h0, key@));
        assert(count < u64::MAX) by {
            assert(occurrences(h0, key@) <= h0.len());
        }
        self.key_frequencies.insert(k, count + 1);
        self.access_history.push_back((key.to_owned(), timestamp));
        let ghost h1 = self.history();
        assert(h1 =~= h0.push(e));
        assert(self.freqs() == f0.insert(key@, (count + 1) as u64));
        assert forall|j: Seq<char>| #[trigger] self.freqs().contains_key(j) <==> occurrences(h1, j) > 0 by {
            if j != key@ {
                assert(occurrences(h0.push(e), j) == occurrences(h0, j));
                assert(f0.contains_key(j) <==> occurrences(h0, j) > 0);
            }
        }
        assert forall|j: Seq<char>| #[trigger] self.freqs().contains_key(j) ==> self.freqs()[j] == occurrences(h1, j) by {
            if j != key@ {
                assert(occurrences(h0.push(e), j) == occurrences(h0, j));
                if f0.contains_key(j) {
                    assert(f0[j] == occurrences(h0, j));
                }
            }
        }
        if self.access_history.len() > self.max_history_size {
            let popped = self.access_history.pop_front();
            match popped {
                Some(old_entry) => {
                    let ghost e0 = access_view(old_entry);
                    let ghost h2 = self.history();
                    assert(h1 =~= seq![e0] + h2);
                    proof {
                        assert forall|j: Seq<char>| #![trigger occurrences(h2, j)] occurrences(h1, j) == occurrences(h2, j) + (if j == e0.0 { 1int } else { 0int }) by {
                            h2.lemma_filter_prepend(e0, is_key(j));
                        }
                    }
                    let old_key = old_entry.0;
                    let f: u64 = match self.key_frequencies.get(&old_key) {
                        Some(c) => *c,
                        None => 0,
                    };
                    assert(occurrences(h1, e0.0) == occurrences(h2, e0.0) + 1);
                    let nf = f.saturating_sub(1);
                    if nf == 0 {
                        self.key_frequencies.remove(&old_key);
                    } else {
                        self.key_frequencies.insert(old_key, nf);
                    }
                    assert forall|j: Seq<char>| #[trigger] self.freqs().contains_key(j) <==> occurrences(h2, j) > 0 by {
                        assert(occurrences(h1, j) == occurrences(h2, j) + (if j == e0.0 { 1int } else { 0int }));
                    }
                    assert forall|j: Seq<char>| #[trigger] self.freqs().contains_key(j) ==> self.freqs()[j] == occurrences(h2, j) by {
                        assert(occurrences(h1, j) == occurrences(h2, j) + (if j == e0.0 { 1int } else { 0int }));
                    }
                    assert(h2 =~= h0.push(e).drop_first());
                },
                None => {},
            }
        }
        self.last_updated = timestamp;
    }

    /// Record an access to `key` now.
    pub fn record_access(&mut self, key: &str)
        requires
            old(self).inv(),
            old(self).history().len() < usize::MAX,
        ensures
            final(self).inv(),
            exists|t: u64| final(self).history() == after_access(old(self).history(), (key@, t), old(self).max_size()),
            final(self).max_size() == old(self).max_size(),
            final(self).created() == old(self).created(),
    {
        let timestamp = generate_timestamp();
        self.record_access_at(key, timestamp);
    }

    /// The number of accesses in the history.
    pub fn total_accesses(&self) -> (r: u64)
        ensures
            r == self.history().len(),
    {
        self.access_history.len() as u64
    }

    /// The number of distinct keys in the history.
    pub fn unique_keys(&self) -> (r: u64)
        requires
            self.inv(),
        ensures
            r == self.freqs().len(),
    {
        self.key_frequencies.len() as u64
    }

    /// Creation time.
    pub fn created_at(&self) -> (r: u64)
        ensures
            r == self.created(),
    {
        self.created_at
    }

    /// Time of the last access or clearing.
    pub fn last_updated(&self) -> (r: u64)
        ensures
            r == self.updated(),
    {
        self.last_updated
    }

    /// Each key of the history with its frequency, each key once.
    pub fn frequencies(&self) -> (r: Vec<(String, u64)>)
        requires
            self.inv(),
        ensures
            r@.len() == self.freqs().len(),
            forall|i: int| 0 <= i < r@.len() ==> #[trigger] self.freqs().contains_key(r@[i].0@) && self.freqs()[r@[i].0@] == r@[i].1,
            forall|i: int, j: int| 0 <= i < j < r@.len() ==> r@[i].0@ != r@[j].0@,
    {
        let ghost es = self.key_frequencies.entries@;
        let mut r: Vec<(String, u64)> = Vec::new();
        let mut i: usize = 0;
        while i < self.key_frequencies.entries.len()
            invariant
                i <= es.len(),
                es == self.key_frequencies.entries@,
                self.inv(),
                r@.len() == i,
                forall|j: int| 0 <= j < i ==> #[trigger] r@[j].0@ == es[j].0@ && r@[j].1 == es[j].1,
            decreases es.len() - i,
        {
            let e = &self.key_frequencies.entries[i];
            r.push((e.0.clone(), e.1));
            i = i + 1;
        }
        proof {
            lemma_map_of_len(es);
            assert forall|j: int| 0 <= j < r@.len() implies #[trigger] self.freqs().contains_key(r@[j].0@) && self.freqs()[r@[j].0@] == r@[j].1 by {
                lemma_distinct_last_index(es, j);
            }
            assert forall|a: int, b: int| 0 <= a < b < r@.len() implies r@[a].0@ != r@[b].0@ by {
                assert(distinct_keys(es));
            }
        }
        r
    }

    /// The number of consecutive access pairs whose keys are in sequence.
    pub fn sequential_pairs(&self) -> (r: u64)
        ensures
            r == sequential_pairs_of(self.history()),
    {
        let ghost h = self.history();
        let n = self.access_history.len();
        if n <= 1 {
            return 0;
        }
        let mut count: u64 = 0;
        let mut i: usize = 1;
        while i < n
            invariant
                1 <= i <= n,
                n == h.len(),
                h == self.history(),
                count == count_idx(i - 1, sequential_step(h)),
                count < i,
            decreases n - i,
        {
            let prev = &self.access_history[i - 1];
            let cur = &self.access_history[i];
            assert(access_view(*prev) == h[i - 1]);
            assert(access_view(*cur) == h[i as int]);
            let step = is_sequential_key(prev.0.as_str(), cur.0.as_str());
            assert(step == sequential_step(h)(i - 1));
            if step {
                count = count + 1;
            }
            i = i + 1;
        }
        count
    }

    /// The sum of the times between consecutive accesses (a step back of
    /// the clock counts as zero).
    pub fn gap_total(&self) -> (r: u128)
        ensures
            r == gap_sum(self.history(), self.history().len() - 1),
    {
        let ghost h = self.history();
        let n = self.access_history.len();
        if n <= 1 {
            return 0;
        }
        let mut total: u128 = 0;
        let mut i: usize = 1;
        while i < n
            invariant
                1 <= i <= n,
                n == h.len(),
                h == self.history(),
                total == gap_sum(h, i - 1),
                0 <= gap_sum(h, i - 1) <= (i - 1) * 0xffff_ffff_ffff_ffffint,
            decreases n - i,
        {
            let t1 = self.access_history[i - 1].1;
            let t2 = self.access_history[i].1;
            assert(access_view(self.access_history@[i - 1]) == h[i - 1]);
            assert(access_view(self.access_history@[i as int]) == h[i as int]);
            let g: u64 = t2.saturating_sub(t1);
            assert(g == gap(h, i - 1));
            assert(total + g <= i * 0xffff_ffff_ffff_ffffint);
            assert(i * 0xffff_ffff_ffff_ffffint <= u128::MAX) by (nonlinear_arith)
                requires
                    i <= usize::MAX,
            ;
            total = total + g as u128;
            i = i + 1;
        }
        total
    }

    /// The time of the first access in the history to a key of highest
    /// frequency; nothing when the history is empty.
    pub fn peak_access_time(&self) -> (r: Option<u64>)
        requires
            self.inv(),
        ensures
            self.freqs().len() == 0 ==> r is None,
            self.freqs().len() > 0 ==> (r matches Some(t) && exists|k: Seq<char>|
                #[trigger] self.freqs().contains_key(k)
                && (forall|j: Seq<char>| #[trigger] self.freqs().contains_key(j) ==> self.freqs()[j] <= self.freqs()[k])
                && first_match(self.history(), is_key(k)) == Some((k, t))),
    {
        let ghost es = self.key_frequencies.entries@;
        let ghost h = self.history();
        let n = self.key_frequencies.entries.len();
        proof {
            lemma_map_of_len(es);
        }
        if n == 0 {
            return None;
        }
        let mut best: usize = 0;
        let mut i: usize = 1;
        while i < n
            invariant
                1 <= i <= n,
                n == es.len(),
                es == self.key_frequencies.entries@,
                best < i,
                forall|j: int| 0 <= j < i ==> es[j].1 <= es[best as int].1,
            decreases n - i,
        {
            if self.key_frequencies.entries[i].1 > self.key_frequencies.entries[best].1 {
                best = i;
            }
            i = i + 1;
        }
        let key = &self.key_frequencies.entries[best].0;
        let ghost k = key@;
        proof {
            lemma_distinct_last_index(es, best as int);
            assert(self.freqs().contains_key(k));
            assert forall|j: Seq<char>| #[trigger] self.freqs().contains_key(j) implies self.freqs()[j] <= self.freqs()[k] by {
                lemma_map_of_contains(es, j);
                let m = choose|m: int| 0 <= m < es.len() && #[trigger] es[m].0@ == j;
                lemma_distinct_last_index(es, m);
            }
            assert(occurrences(h, k) > 0);
        }
        let hn = self.access_history.len();
        let mut p: usize = 0;
        assert(h.subrange(0, h.len() as int) =~= h);
        while p < hn
            invariant
                p <= hn,
                hn == h.len(),
                h == self.history(),
                k == key@,
                self.inv(),
                self.freqs().contains_key(k),
                self.freqs().len() > 0,
                forall|j: Seq<char>| #[trigger] self.freqs().contains_key(j) ==> self.freqs()[j] <= self.freqs()[k],
                first_match(h, is_key(k)) == first_match(h.subrange(p as int, h.len() as int), is_key(k)),
                forall|q: int| 0 <= q < p ==> h[q].0 != k,
            decreases hn - p,
        {
            let entry = &self.access_history[p];
            assert(access_view(*entry) == h[p as int]);
            if entry.0 == *key {
                proof {
                    lemma_first_match_hit(h, p as int, is_key(k));
                    assert(h[p as int] == (k, entry.1));
                    assert(self.freqs().contains_key(k));
                }
                return Some(entry.1);
            }
            proof {
                lemma_first_match_skip(h, p as int, is_key(k));
            }
            p = p + 1;
        }
        proof {
            assert(h.filter(is_key(k)).len() > 0);
            let x = h.filter(is_key(k))[0];
            h.lemma_filter_pred(is_key(k), 0);
            assert(h.filter(is_key(k)).contains(x));
            h.lemma_filter_contains_rev(is_key(k), x);
        }
        None
    }

    /// The last `n` accesses (all of them when there are fewer), newest first.
    pub fn recent_accesses(&self, n: usize) -> (r: Vec<(String, u64)>)
        ensures
            r@.len() == (if n <= self.history().len() { n as nat } else { self.history().len() }),
            forall|i: int| 0 <= i < r@.len() ==> #[trigger] access_view(r@[i]) == self.history()[self.history().len() - 1 - i],
    {
        let ghost h = self.history();
        let len = self.access_history.len();
        let m = if n <= len {
            n
        } else {
            len
        };
        let mut r: Vec<(String, u64)> = Vec::new();
        let mut i: usize = 0;
        while i < m
            invariant
                i <= m,
                m <= len,
                len == h.len(),
                h == self.history(),
                r@.len() == i,
                forall|j: int| 0 <= j < i ==> #[trigger] access_view(r@[j]) == h[h.len() - 1 - j],
            decreases m - i,
        {
            let e = &self.access_history[len - 1 - i];
            assert(access_view(*e) == h[h.len() - 1 - i]);
            r.push((e.0.clone(), e.1));
            i = i + 1;
        }
        r
    }

    /// Forget all accesses, at time `now`.
    pub fn clear_history_at(&mut self, now: u64)
        ensures
            final(self).inv(),
            final(self).history() == Seq::<AccessView>::empty(),
            final(self).max_size() == old(self).max_size(),
            final(self).created() == old(self).created(),
            final(self).updated() == now,
    {
        self.access_history.clear();
        self.key_frequencies = AssocList::new();
        self.last_updated = now;
        assert(self.history() =~= Seq::<AccessView>::empty());
    }

    /// Forget all accesses, now.
    pub fn clear_history(&mut self)
        ensures
            final(self).inv(),
            final(self).history() == Seq::<AccessView>::empty(),
            final(self).max_size() == old(self).max_size(),
            final(self).created() == old(self).created(),
    {
        let now = generate_timestamp();
        self.clear_history_at(now);
    }

    /// The `top_n` most frequent keys with their frequencies, most frequent
    /// first (keys of equal frequency in no promised order): as many as
    /// there are keys, up to `top_n`, and no key left out is more frequent
    /// than the last one given.
    pub fn get_hot_keys(&self, top_n: usize) -> (r: Vec<(String, u64)>)
        requires
            self.inv(),
        ensures
            r@.len() == (if top_n <= self.freqs().len() { top_n as nat } else { self.freqs().len() }),
            forall|i: int| 0 <= i < r@.len() ==> #[trigger] self.freqs().contains_key(r@[i].0@) && self.freqs()[r@[i].0@] == r@[i].1,
            forall|i: int, j: int| 0 <= i < j < r@.len() ==> r@[i].0@ != r@[j].0@ && r@[i].1 >= r@[j].1,
            r@.len() > 0 ==> forall|k: Seq<char>|
                #[trigger] self.freqs().contains_key(k) && (forall|i: int| 0 <= i < r@.len() ==> r@[i].0@ != k) ==> self.freqs()[k]
                    <= r@[r@.len() - 1].1,
    {
        let all = self.frequencies();
        let ghost f = self.freqs();
        let n = all.len();
        let limit = if top_n <= n {
            top_n
        } else {
            n
        };
        let mut rest = all;
        let mut r: Vec<(String, u64)> = Vec::new();
        proof {
            assert forall|k: Seq<char>| #[trigger] f.contains_key(k) implies exists|i: int| 0 <= i < rest@.len() && rest@[i].0@ == k by {
                lemma_distinct_keys_cover(self, rest@, k);
            }
        }
        while r.len() < limit
            invariant
                limit <= n,
                n == f.len(),
                f == self.freqs(),
                r@.len() <= limit,
                r@.len() + rest@.len() == n,
                forall|i: int| 0 <= i < r@.len() ==> #[trigger] f.contains_key(r@[i].0@) && f[r@[i].0@] == r@[i].1,
                forall|i: int| 0 <= i < rest@.len() ==> #[trigger] f.contains_key(rest@[i].0@) && f[rest@[i].0@] == rest@[i].1,
                forall|i: int, j: int| 0 <= i < j < r@.len() ==> r@[i].0@ != r@[j].0@ && r@[i].1 >= r@[j].1,
                forall|i: int, j: int| 0 <= i < j < rest@.len() ==> rest@[i].0@ != rest@[j].0@,
                forall|i: int, j: int| 0 <= i < r@.len() && 0 <= j < rest@.len() ==> r@[i].0@ != rest@[j].0@,
                r@.len() > 0 ==> forall|j: int| 0 <= j < rest@.len() ==> #[trigger] rest@[j].1 <= r@[r@.len() - 1].1,
                forall|k: Seq<char>| #[trigger] f.contains_key(k) ==> (exists|i: int| 0 <= i < r@.len() && r@[i].0@ == k) || (exists|
                    i: int,
                | 0 <= i < rest@.len() && rest@[i].0@ == k),
            decreases limit - r@.len(),
        {
            let mut best: usize = 0;
            let mut i: usize = 1;
            while i < rest.len()
                invariant
                    rest@.len() > 0,
                    1 <= i <= rest@.len(),
                    best < i,
                    forall|j: int| 0 <= j < rest@.len() ==> #[trigger] f.contains_key(rest@[j].0@) && f[rest@[j].0@] == rest@[j].1,
                    forall|a: int, b: int| 0 <= a < b < rest@.len() ==> rest@[a].0@ != rest@[b].0@,
                    r@.len() > 0 ==> forall|j: int| 0 <= j < rest@.len() ==> #[trigger] rest@[j].1 <= r@[r@.len() - 1].1,
                    forall|a: int, b: int| 0 <= a < r@.len() && 0 <= b < rest@.len() ==> r@[a].0@ != rest@[b].0@,
                    forall|j: int| 0 <= j < i ==> rest@[j].1 <= rest@[best as int].1,
                decreases rest@.len() - i,
            {
                if rest[i].1 > rest[best].1 {
                    best = i;
                }
                i = i + 1;
            }
            let ghost r0 = r@;
            let ghost rest0 = rest@;
            let item = rest.remove(best);
            r.push(item);
            proof {
                lemma_hot_keys_step(f, r0, rest0, best as int);
                assert(r@ == r0.push(rest0[best as int]));
                assert(rest@ == rest0.remove(best as int));
            }
        }
        proof {
            if r@.len() > 0 {
                assert forall|k: Seq<char>|
                    #[trigger] f.contains_key(k) && (forall|i: int| 0 <= i < r@.len() ==> r@[i].0@ != k) implies f[k] <= r@[r@.len() - 1].1 by {
                    let i = choose|i: int| 0 <= i < rest@.len() && rest@[i].0@ == k;
                    assert(rest@[i].1 <= r@[r@.len() - 1].1);
                }
            }
        }
        r
    }
}

/// The number of consecutive pairs in a list of accesses whose keys are in sequence.
pub fn count_sequential_pairs(v: &Vec<(String, u64)>) -> (r: u64)
    ensures
        r == sequential_pairs_of(v@.map_values(|e: (String, u64)| access_view(e))),
{
    let ghost h = v@.map_values(|e: (String, u64)| access_view(e));
    let n = v.len();
    if n <= 1 {
        return 0;
    }
    let mut count: u64 = 0;
    let mut i: usize = 1;
    while i < n
        invariant
            1 <= i <= n,
            n == h.len(),
            h == v@.map_values(|e: (String, u64)| access_view(e)),
            count == count_idx(i - 1, sequential_step(h)),
            count < i,
        decreases n - i,
    {
        assert(access_view(v@[i - 1]) == h[i - 1]);
        assert(access_view(v@[i as int]) == h[i as int]);
        let step = is_sequential_key(v[i - 1].0.as_str(), v[i].0.as_str());
        assert(step == sequential_step(h)(i - 1));
        if step {
            count = count + 1;
        }
        i = i + 1;
    }
    count
}

/// Selection step of `get_hot_keys`: moving the most frequent remaining
/// entry to the end of the chosen ones keeps the selection invariant.
proof fn lemma_hot_keys_step(f: Map<Seq<char>, u64>, r0: Seq<(String, u64)>, rest0: Seq<(String, u64)>, best: int)
    requires
        0 <= best < rest0.len(),
        forall|j: int| 0 <= j < rest0.len() ==> rest0[j].1 <= rest0[best].1,
        forall|i: int| 0 <= i < r0.len() ==> #[trigger] f.contains_key(r0[i].0@) && f[r0[i].0@] == r0[i].1,
        forall|i: int| 0 <= i < rest0.len() ==> #[trigger] f.contains_key(rest0[i].0@) && f[rest0[i].0@] == rest0[i].1,
        forall|i: int, j: int| 0 <= i < j < r0.len() ==> r0[i].0@ != r0[j].0@ && r0[i].1 >= r0[j].1,
        forall|i: int, j: int| 0 <= i < j < rest0.len() ==> rest0[i].0@ != rest0[j].0@,
        forall|i: int, j: int| 0 <= i < r0.len() && 0 <= j < rest0.len() ==> r0[i].0@ != rest0[j].0@,
        r0.len() > 0 ==> forall|j: int| 0 <= j < rest0.len() ==> #[trigger] rest0[j].1 <= r0[r0.len() - 1].1,
        forall|k: Seq<char>| #[trigger] f.contains_key(k) ==> (exists|i: int| 0 <= i < r0.len() && r0[i].0@ == k) || (exists|
            i: int,
        | 0 <= i < rest0.len() && rest0[i].0@ == k),
    ensures
        ({
            let r = r0.push(rest0[best]);
            let rest = rest0.remove(best);
            &&& forall|i: int| 0 <= i < r.len() ==> #[trigger] f.contains_key(r[i].0@) && f[r[i].0@] == r[i].1
            &&& forall|i: int| 0 <= i < rest.len() ==> #[trigger] f.contains_key(rest[i].0@) && f[rest[i].0@] == rest[i].1
            &&& forall|i: int, j: int| 0 <= i < j < r.len() ==> r[i].0@ != r[j].0@ && r[i].1 >= r[j].1
            &&& forall|i: int, j: int| 0 <= i < j < rest.len() ==> rest[i].0@ != rest[j].0@
            &&& forall|i: int, j: int| 0 <= i < r.len() && 0 <= j < rest.len() ==> r[i].0@ != rest[j].0@
            &&& forall|j: int| 0 <= j < rest.len() ==> #[trigger] rest[j].1 <= r[r.len() - 1].1
            &&& forall|k: Seq<char>| #[trigger] f.contains_key(k) ==> (exists|i: int| 0 <= i < r.len() && r[i].0@ == k) || (exists|
                i: int,
            | 0 <= i < rest.len() && rest[i].0@ == k)
        }),
{
    let r = r0.push(rest0[best]);
    let rest = rest0.remove(best);
    assert forall|i: int| 0 <= i < r.len() implies #[trigger] f.contains_key(r[i].0@) && f[r[i].0@] == r[i].1 by {
        if i < r0.len() {
            assert(r[i] == r0[i]);
        } else {
            assert(r[i] == rest0[best]);
        }
    }
    assert forall|i: int| 0 <= i < rest.len() implies #[trigger] f.contains_key(rest[i].0@) && f[rest[i].0@] == rest[i].1 by {
        if i < best {
            assert(rest[i] == rest0[i]);
        } else {
            assert(rest[i] == rest0[i + 1]);
        }
    }
    assert forall|a: int, b: int| 0 <= a < b < r.len() implies r[a].0@ != r[b].0@ && r[a].1 >= r[b].1 by {
        if b == r0.len() {
            assert(r[a] == r0[a]);
            assert(r[b] == rest0[best]);
            assert(rest0[best].1 <= r0[r0.len() - 1].1);
            if a < r0.len() - 1 {
                assert(r0[a].1 >= r0[r0.len() - 1].1);
            }
        } else {
            assert(r[a] == r0[a]);
            assert(r[b] == r0[b]);
        }
    }
    assert forall|a: int, b: int| 0 <= a < b < rest.len() implies rest[a].0@ != rest[b].0@ by {
        let a0 = if a < best { a } else { a + 1 };
        let b0 = if b < best { b } else { b + 1 };
        assert(rest[a] == rest0[a0]);
        assert(rest[b] == rest0[b0]);
    }
    assert forall|a: int, b: int| 0 <= a < r.len() && 0 <= b < rest.len() implies r[a].0@ != rest[b].0@ by {
        let b0 = if b < best { b } else { b + 1 };
        assert(rest[b] == rest0[b0]);
        if a < r0.len() {
            assert(r[a] == r0[a]);
        } else {
            assert(r[a] == rest0[best]);
        }
    }
    assert forall|j: int| 0 <= j < rest.len() implies #[trigger] rest[j].1 <= r[r.len() - 1].1 by {
        let j0 = if j < best { j } else { j + 1 };
        assert(rest[j] == rest0[j0]);
        assert(r[r.len() - 1] == rest0[best]);
    }
    assert forall|k: Seq<char>| #[trigger] f.contains_key(k) implies (exists|i: int| 0 <= i < r.len() && r[i].0@ == k) || (exists|
        i: int,
    | 0 <= i < rest.len() && rest[i].0@ == k) by {
        if exists|i: int| 0 <= i < r0.len() && r0[i].0@ == k {
            let i = choose|i: int| 0 <= i < r0.len() && r0[i].0@ == k;
            assert(r[i] == r0[i]);
        } else {
            let i = choose|i: int| 0 <= i < rest0.len() && rest0[i].0@ == k;
            if i == best {
                assert(r[r0.len() as int] == rest0[i]);
            } else if i < best {
                assert(rest[i] == rest0[i]);
            } else {
                assert(rest[i - 1] == rest0[i]);
            }
        }
    }
}

/// Every key with a frequency is among the entries `frequencies` gives.
proof fn lemma_distinct_keys_cover(log: &AccessLog, v: Seq<(String, u64)>, k: Seq<char>)
    requires
        log.inv(),
        log.freqs().contains_key(k),
        v.len() == log.freqs().len(),
        forall|i: int| 0 <= i < v.len() ==> #[trigger] log.freqs().contains_key(v[i].0@) && log.freqs()[v[i].0@] == v[i].1,
        forall|i: int, j: int| 0 <= i < j < v.len() ==> v[i].0@ != v[j].0@,
    ensures
        exists|i: int| 0 <= i < v.len() && v[i].0@ == k,
{
    let keys = Set::new(|x: Seq<char>| exists|i: int| 0 <= i < v.len() && v[i].0@ == x);
    if !(exists|i: int| 0 <= i < v.len() && v[i].0@ == k) {
        let img = v.map_values(|e: (String, u64)| e.0@);
        assert forall|i: int, j: int| 0 <= i < j < img.len() implies img[i] != img[j] by {}
        img.unique_seq_to_set();
        assert(img.to_set().subset_of(log.freqs().dom().remove(k))) by {
            assert forall|x: Seq<char>| img.to_set().contains(x) implies log.freqs().dom().remove(k).contains(x) by {
                let i = choose|i: int| 0 <= i < img.len() && img[i] == x;
                assert(log.freqs().contains_key(v[i].0@));
            }
        }
        lemma_freqs_finite(log);
        vstd::set_lib::lemma_len_subset(img.to_set(), log.freqs().dom().remove(k));
    }
}

/// The frequency table of a well-formed log is finite.
proof fn lemma_freqs_finite(log: &AccessLog)
    requires
        log.inv(),
    ensures
        log.freqs().dom().finite(),
{
    lemma_map_of_len(log.key_frequencies.entries@);
}

} // verus!
