//! The ordered index: a sequence of integer timestamps in millisecond
//! resolution, with monotonicity and uniqueness checks and sample-rate
//! inference.

use vstd::prelude::*;

verus! {

/// A sequence of timestamps is strictly increasing when every element is
/// smaller than all the elements after it.
pub open spec fn strictly_increasing(s: Seq<i64>) -> bool {
    forall|i: int, j: int| 0 <= i < j < s.len() ==> s[i] < s[j]
}

/// A sequence of timestamps is monotonic when no element is smaller than the
/// one before it (equal neighbours are allowed).
pub open spec fn monotonic(s: Seq<i64>) -> bool {
    forall|i: int| 0 < i < s.len() ==> s[i - 1] <= #[trigger] s[i]
}

/// A sequence of timestamps is unique when no value occurs twice, anywhere.
pub open spec fn unique(s: Seq<i64>) -> bool {
    forall|i: int, j: int| 0 <= i < j < s.len() ==> s[i] != s[j]
}

/// The consecutive differences of a timestamp sequence. The subtraction is
/// exact only when each difference fits in `i64`.
pub open spec fn consecutive_differences(s: Seq<i64>) -> Seq<i64> {
    Seq::new((s.len() - 1) as nat, |i: int| (s[i + 1] - s[i]) as i64)
}

/// Every consecutive difference of `s` fits in `i64`, so that the differences
/// can be computed exactly.
pub open spec fn differences_fit(s: Seq<i64>) -> bool {
    forall|i: int| 0 < i < s.len() ==> i64::MIN <= #[trigger] s[i] - s[i - 1] <= i64::MAX
}

/// How many times `x` occurs in `s`.
pub open spec fn occurrences(s: Seq<i64>, x: i64) -> nat
    decreases s.len(),
{
    if s.len() == 0 {
        0
    } else {
        occurrences(s.drop_last(), x) + if s.last() == x {
            1nat
        } else {
            0nat
        }
    }
}

/// A value that occurs at least once in `s` can be found at some position.
pub proof fn lemma_occurrences_positive(s: Seq<i64>, x: i64)
    ensures
        occurrences(s, x) > 0 <==> exists|k: int| 0 <= k < s.len() && s[k] == x,
    decreases s.len(),
{
    if s.len() > 0 {
        lemma_occurrences_positive(s.drop_last(), x);
        if s.last() == x {
            assert(s[s.len() - 1] == x);
        } else if exists|k: int| 0 <= k < s.len() && s[k] == x {
            let k = choose|k: int| 0 <= k < s.len() && s[k] == x;
            assert(s.drop_last()[k] == x);
        }
    }
}

/// Adjacent order carries over to every pair: if each element is below its
/// successor, the whole sequence is strictly increasing.
pub proof fn lemma_adjacent_implies_strictly_increasing(s: Seq<i64>)
    requires
        forall|i: int| 0 < i < s.len() ==> s[i - 1] < #[trigger] s[i],
    ensures
        strictly_increasing(s),
{
    assert forall|i: int, j: int| 0 <= i < j < s.len() implies s[i] < s[j] by {
        lemma_increase_over_gap(s, i, j);
    }
}

proof fn lemma_increase_over_gap(s: Seq<i64>, i: int, j: int)
    requires
        forall|k: int| 0 < k < s.len() ==> s[k - 1] < #[trigger] s[k],
        0 <= i < j < s.len(),
    ensures
        s[i] < s[j],
    decreases j - i,
{
    if i + 1 < j {
        lemma_increase_over_gap(s, i, j - 1);
    }
}

/// The ordered index, represented as an array of millisecond timestamps.
/// The constructor stores the timestamps exactly as given; enforcing strict
/// increase is the job of the series constructors.
#[derive(Debug)]
pub struct DateTimeIndex {
    pub values: Vec<i64>,
}

impl Clone for DateTimeIndex {
    /// An owned copy holding the same timestamps.
    fn clone(&self) -> (r: Self)
        ensures
            r@ == self@,
    {
        let values = self.values.clone();
        proof {
            assert(values@ =~= self.values@);
        }
        DateTimeIndex { values }
    }
}

impl View for DateTimeIndex {
    type V = Seq<i64>;

    open spec fn view(&self) -> Seq<i64> {
        self.values@
    }
}

impl DateTimeIndex {
    /// Create a new index from the timestamps, stored as given.
    pub fn new(values: Vec<i64>) -> (r: DateTimeIndex)
        ensures
            r@ == values@,
    {
        DateTimeIndex { values }
    }

    /// Number of timestamps in the index.
    pub fn len(&self) -> (r: usize)
        ensures
            r == self@.len(),
    {
        self.values.len()
    }

    /// The timestamp at `pos`, or `None` when `pos` is out of range.
    pub fn index_at(&self, pos: usize) -> (r: Option<i64>)
        ensures
            pos < self@.len() ==> r == Some(self@[pos as int]),
            pos >= self@.len() ==> r is None,
    {
        if pos < self.values.len() {
            Some(self.values[pos])
        } else {
            None
        }
    }

    /// Check whether the index is monotonic increasing: every timestamp is at
    /// least the one before it. Empty and single-element indexes count as
    /// monotonic.
    pub fn is_monotonic(&self) -> (r: bool)
        ensures
            r == monotonic(self@),
    {
        let n = self.values.len();
        let mut i: usize = 1;
        while i < n
            invariant
                1 <= i,
                n == self@.len(),
                i <= n || n == 0,
                forall|j: int| 0 < j < i && j < n ==> self@[j - 1] <= #[trigger] self@[j],
            decreases n - i,
        {
            if self.values[i - 1] > self.values[i] {
                return false;
            }
            i += 1;
        }
        true
    }

    /// Check whether no timestamp occurs twice anywhere in the index.
    pub fn is_unique(&self) -> (r: bool)
        ensures
            r == unique(self@),
    {
        let n = self.values.len();
        let mut i: usize = 0;
        while i < n
            invariant
                i <= n,
                n == self@.len(),
                forall|p: int, q: int| 0 <= p < q < n && p < i ==> self@[p] != self@[q],
            decreases n - i,
        {
            let mut j: usize = i + 1;
            while j < n
                invariant
                    i < j,
                    j <= n || n == 0,
                    i < n,
                    n == self@.len(),
                    forall|q: int| i < q < j ==> self@[i as int] != self@[q],
                decreases n - j,
            {
                if self.values[i] == self.values[j] {
                    return false;
                }
                j += 1;
            }
            i += 1;
        }
        true
    }

    /// Infer the index sample rate: the most frequent consecutive difference.
    /// An index of fewer than two timestamps has no differences, and the rate
    /// degenerates to 0. When several differences are equally frequent, which
    /// of them is returned is left open; callers must not rely on the
    /// tie-break.
    pub fn infer_sample_rate(&self) -> (r: i64)
        requires
            differences_fit(self@),
        ensures
            self@.len() < 2 ==> r == 0,
            self@.len() >= 2 ==> exists|k: int|
                0 <= k < consecutive_differences(self@).len()
                    && consecutive_differences(self@)[k] == r,
            self@.len() >= 2 ==> forall|x: i64|
                occurrences(consecutive_differences(self@), x) <= occurrences(
                    consecutive_differences(self@),
                    r,
                ),
    {
        let n = self.values.len();
        if n < 2 {
            return 0;
        }
        let ghost diffs = consecutive_differences(self@);
        let mut deltas: Vec<i64> = Vec::new();
        let mut i: usize = 1;
        while i < n
            invariant
                1 <= i <= n,
                n == self@.len(),
                differences_fit(self@),
                deltas@.len() == i - 1,
                forall|j: int| 0 <= j < i - 1 ==> deltas@[j] == diffs[j],
                diffs == consecutive_differences(self@),
            decreases n - i,
        {
            deltas.push(self.values[i] - self.values[i - 1]);
            i += 1;
        }
        proof {
            assert(deltas@ =~= diffs);
        }
        let m = deltas.len();
        let mut best_value: i64 = deltas[0];
        let mut best_count: usize = count_occurrences(&deltas, best_value);
        let mut k: usize = 1;
        while k < m
            invariant
                1 <= k <= m,
                m == deltas@.len(),
                m >= 1,
                exists|p: int| 0 <= p < m && deltas@[p] == best_value,
                best_count == occurrences(deltas@, best_value),
                forall|p: int|
                    0 <= p < k ==> occurrences(deltas@, #[trigger] deltas@[p]) <= best_count,
            decreases m - k,
        {
            let candidate = deltas[k];
            let count = count_occurrences(&deltas, candidate);
            if count > best_count {
                best_value = candidate;
                best_count = count;
            }
            k += 1;
        }
        proof {
            assert forall|x: i64| occurrences(deltas@, x) <= occurrences(deltas@, best_value) by {
                lemma_occurrences_positive(deltas@, x);
                if occurrences(deltas@, x) > 0 {
                    let p = choose|p: int| 0 <= p < deltas@.len() && deltas@[p] == x;
                    assert(occurrences(deltas@, deltas@[p]) <= best_count);
                }
            }
        }
        best_value
    }
}

impl DateTimeIndex {
    /// Create a cursor over the timestamps, starting at the first one.
    pub fn iter(&self) -> (r: IndexIter<'_>)
        ensures
            r.timestamps() == self@,
            r.position() == 0,
    {
        IndexIter { index: self, pos: 0 }
    }
}

/// A restartable forward cursor over the timestamps of an index. Walking it
/// does not change the index; a fresh cursor is had from `iter` again.
pub struct IndexIter<'a> {
    index: &'a DateTimeIndex,
    pos: usize,
}

impl IndexIter<'_> {
    /// The timestamps the cursor walks over.
    pub closed spec fn timestamps(self) -> Seq<i64> {
        self.index@
    }

    /// How many timestamps the cursor has already handed out.
    pub closed spec fn position(self) -> int {
        self.pos as int
    }

    /// The next timestamp, or `None` once all have been handed out.
    pub fn next(&mut self) -> (r: Option<i64>)
        ensures
            final(self).timestamps() == old(self).timestamps(),
            old(self).position() < old(self).timestamps().len() ==> {
                &&& r == Some(old(self).timestamps()[old(self).position()])
                &&& final(self).position() == old(self).position() + 1
            },
            old(self).position() >= old(self).timestamps().len() ==> {
                &&& r is None
                &&& final(self).position() == old(self).position()
            },
    {
        if self.pos < self.index.values.len() {
            let t = self.index.values[self.pos];
            self.pos += 1;
            Some(t)
        } else {
            None
        }
    }
}

impl PartialEq for DateTimeIndex {
    /// Two indexes are equal when they hold the same timestamps in the same
    /// order.
    fn eq(&self, other: &Self) -> (r: bool) {
        let r = self.values == other.values;
        proof {
            if self.values@.len() == other.values@.len() && (forall|i: int|
                0 <= i < self.values@.len() ==> self.values@[i] == other.values@[i]) {
                assert(self.values@ =~= other.values@);
            }
        }
        r
    }
}

impl vstd::std_specs::cmp::PartialEqSpecImpl for DateTimeIndex {
    open spec fn obeys_eq_spec() -> bool {
        true
    }

    open spec fn eq_spec(&self, other: &DateTimeIndex) -> bool {
        self@ == other@
    }
}

/// Count how often `x` occurs in `v`.
fn count_occurrences(v: &Vec<i64>, x: i64) -> (c: usize)
    ensures
        c == occurrences(v@, x),
{
    let n = v.len();
    let mut c: usize = 0;
    let mut i: usize = 0;
    while i < n
        invariant
            i <= n,
            n == v@.len(),
            c <= i,
            c == occurrences(v@.take(i as int), x),
        decreases n - i,
    {
        proof {
            assert(v@.take(i + 1).drop_last() =~= v@.take(i as int));
            assert(v@.take(i + 1).last() == v@[i as int]);
        }
        if v[i] == x {
            c += 1;
        }
        i += 1;
    }
    proof {
        assert(v@.take(n as int) =~= v@);
    }
    c
}

} // verus!
