//! The time series: an ordered index paired with a value sequence of equal
//! length. Values are opaque 64-bit sample words chosen by the caller; the
//! series never computes with them, it only stores, moves and hands them out,
//! so any 64-bit encoding of a measurement can be carried through.

use vstd::prelude::*;

use crate::index::{strictly_increasing, DateTimeIndex};
use crate::index::lemma_adjacent_implies_strictly_increasing;

verus! {

/// The length of the longest strictly increasing prefix of `s`: scanning
/// stops right before the first element that does not exceed its predecessor.
/// A non-empty sequence always has a prefix of at least one element.
pub open spec fn increasing_prefix_len(s: Seq<i64>) -> nat
    decreases s.len(),
{
    if s.len() <= 1 {
        s.len()
    } else if s[1] <= s[0] {
        1
    } else {
        (1 + increasing_prefix_len(s.skip(1))) as nat
    }
}

/// The increasing prefix ends exactly at the first violation: any cut `k`
/// that is strictly increasing up to `k` and violated at `k` (or that reaches
/// the end) is the prefix length.
pub proof fn lemma_increasing_prefix_len_is(s: Seq<i64>, k: int)
    requires
        0 <= k <= s.len(),
        s.len() > 0 ==> 1 <= k,
        forall|j: int| 0 < j < k ==> s[j - 1] < #[trigger] s[j],
        k < s.len() ==> s[k] <= s[k - 1],
    ensures
        increasing_prefix_len(s) == k,
    decreases s.len(),
{
    if s.len() <= 1 {
    } else if s[1] <= s[0] {
        if k >= 2 {
            assert(s[0] < s[1]);
        }
    } else {
        assert(k >= 2) by {
            if k == 1 {
                assert(s[1] <= s[0]);
            }
        }
        let t = s.skip(1);
        assert forall|j: int| 0 < j < k - 1 implies t[j - 1] < #[trigger] t[j] by {
            assert(s[j] < s[j + 1]);
        }
        lemma_increasing_prefix_len_is(t, k - 1);
    }
}

/// What the increasing prefix guarantees: it never exceeds the length, it
/// covers at least one element of a non-empty sequence, it is strictly
/// increasing, and the element right after it (if any) violates the order.
pub proof fn lemma_increasing_prefix_properties(s: Seq<i64>)
    ensures
        increasing_prefix_len(s) <= s.len(),
        s.len() > 0 ==> 1 <= increasing_prefix_len(s),
        forall|j: int| 0 < j < increasing_prefix_len(s) ==> s[j - 1] < #[trigger] s[j],
        increasing_prefix_len(s) < s.len()
            ==> s[increasing_prefix_len(s) as int] <= s[increasing_prefix_len(s) - 1],
    decreases s.len(),
{
    if s.len() <= 1 {
    } else if s[1] <= s[0] {
    } else {
        let t = s.skip(1);
        lemma_increasing_prefix_properties(t);
        let k = increasing_prefix_len(s) as int;
        assert forall|j: int| 0 < j < k implies s[j - 1] < #[trigger] s[j] by {
            if j >= 2 {
                assert(t[j - 2] < t[j - 1]);
            }
        }
        if k < s.len() {
            assert(t[k - 2] >= t[k - 1]);
        }
    }
}

/// A single data point: one timestamp paired with one sample word. It is a
/// transient projection of the series' parallel arrays, never stored apart
/// from them.
#[derive(Clone, Copy, Debug, PartialEq, Eq, Structural)]
pub struct DataPoint {
    pub timestamp: i64,
    pub value: u64,
}

impl DataPoint {
    /// Pair a timestamp with a sample word.
    pub fn new(timestamp: i64, value: u64) -> (r: DataPoint)
        ensures
            r == (DataPoint { timestamp, value }),
    {
        DataPoint { timestamp, value }
    }
}

/// The timestamps of a sequence of data points, in the same order.
pub open spec fn stamps_of(dps: Seq<DataPoint>) -> Seq<i64> {
    Seq::new(dps.len(), |i: int| dps[i].timestamp)
}

/// The longest prefix of a record stream whose timestamps are strictly
/// increasing: what construction from records keeps.
pub open spec fn normalized(dps: Seq<DataPoint>) -> Seq<DataPoint> {
    dps.take(increasing_prefix_len(stamps_of(dps)) as int)
}

/// How many points construction from parallel arrays keeps: the increasing
/// prefix of the timestamps, further capped by the number of values supplied.
pub open spec fn normalized_len(ts: Seq<i64>, vs: Seq<u64>) -> nat {
    if increasing_prefix_len(ts) <= vs.len() {
        increasing_prefix_len(ts)
    } else {
        vs.len()
    }
}

/// A time series: an ordered index of strictly increasing timestamps and one
/// sample word per timestamp. Constructed values always satisfy this shape;
/// the constructors enforce it by truncating to the valid prefix. A series is
/// an immutable value: every operation returns a fresh series.
#[derive(Debug)]
pub struct TimeSeries {
    index: DateTimeIndex,
    values: Vec<u64>,
}

impl Clone for TimeSeries {
    /// An owned copy with the same timestamps and samples.
    fn clone(&self) -> (r: Self)
        ensures
            r@ == self@,
            r.timestamps() == self.timestamps(),
            r.samples() == self.samples(),
    {
        proof {
            use_type_invariant(self);
        }
        let values = self.values.clone();
        let r = TimeSeries { index: self.index.clone(), values };
        proof {
            assert(r.values@ =~= self.values@);
            assert(r@ =~= self@);
        }
        r
    }
}

impl View for TimeSeries {
    type V = Seq<DataPoint>;

    /// A series is viewed as its sequence of data points, in index order.
    closed spec fn view(&self) -> Seq<DataPoint> {
        Seq::new(
            self.index@.len(),
            |i: int| DataPoint { timestamp: self.index@[i], value: self.values@[i] },
        )
    }
}

impl TimeSeries {
    /// The timestamps of the series, in order.
    pub closed spec fn timestamps(self) -> Seq<i64> {
        self.index@
    }

    /// The sample words of the series, in index order.
    pub closed spec fn samples(self) -> Seq<u64> {
        self.values@
    }

    /// Every constructed series keeps one sample word per timestamp and a
    /// strictly increasing index.
    #[verifier::type_invariant]
    pub closed spec fn well_formed(self) -> bool {
        self.index@.len() == self.values@.len() && strictly_increasing(self.index@)
    }

    /// Create an empty time series.
    pub fn empty() -> (r: TimeSeries)
        ensures
            r@ == Seq::<DataPoint>::empty(),
            r.timestamps() == Seq::<i64>::empty(),
            r.samples() == Seq::<u64>::empty(),
    {
        let r = TimeSeries { index: DateTimeIndex::new(Vec::new()), values: Vec::new() };
        proof {
            assert(r@ =~= Seq::<DataPoint>::empty());
            assert(r.timestamps() =~= Seq::<i64>::empty());
            assert(r.samples() =~= Seq::<u64>::empty());
        }
        r
    }

    /// Create a time series from parallel arrays of timestamps and sample
    /// words. Both are truncated to the longest strictly increasing prefix of
    /// the timestamps, capped by the number of values: malformed input
    /// silently shrinks to its valid prefix instead of failing, and trailing
    /// data is discarded.
    pub fn new(index: Vec<i64>, values: Vec<u64>) -> (r: TimeSeries)
        ensures
            r.timestamps() == index@.take(normalized_len(index@, values@) as int),
            r.samples() == values@.take(normalized_len(index@, values@) as int),
            r@.len() == normalized_len(index@, values@),
    {
        let ghost ts0 = index@;
        let ghost vs0 = values@;
        let k = increasing_prefix(&index);
        let m = if k <= values.len() {
            k
        } else {
            values.len()
        };
        proof {
            lemma_increasing_prefix_properties(ts0);
            assert(m == normalized_len(ts0, vs0));
        }
        let mut index = index;
        let mut values = values;
        index.truncate(m);
        values.truncate(m);
        proof {
            assert(index@ =~= ts0.take(m as int));
            assert(values@ =~= vs0.take(m as int));
            assert forall|j: int| 0 < j < index@.len() implies index@[j - 1] < #[trigger] index@[j] by {
                assert(index@[j] == ts0[j]);
                assert(index@[j - 1] == ts0[j - 1]);
                assert(j < increasing_prefix_len(ts0));
            }
            lemma_adjacent_implies_strictly_increasing(index@);
        }
        let r = TimeSeries { index: DateTimeIndex::new(index), values };
        r
    }
}

/// Why the strict constructor rejected its input.
#[derive(Clone, Copy, Debug, PartialEq, Eq, Structural)]
pub enum SeriesError {
    /// The timestamps are not strictly increasing.
    NonMonotonicIndex,
    /// There are more timestamps than values, or the other way round.
    LengthMismatch,
}

impl TimeSeries {
    /// The strict counterpart of `new`: instead of silently truncating, it
    /// rejects input whose arrays differ in length or whose timestamps are
    /// not strictly increasing, and otherwise keeps both arrays whole.
    pub fn try_new(index: Vec<i64>, values: Vec<u64>) -> (r: Result<TimeSeries, SeriesError>)
        ensures
            index@.len() != values@.len() <==> r == Err::<TimeSeries, SeriesError>(
                SeriesError::LengthMismatch,
            ),
            index@.len() == values@.len() && !strictly_increasing(index@) <==> r == Err::<
                TimeSeries,
                SeriesError,
            >(SeriesError::NonMonotonicIndex),
            index@.len() == values@.len() && strictly_increasing(index@) <==> r is Ok,
            r matches Ok(ts) ==> ts.timestamps() == index@ && ts.samples() == values@,
    {
        if index.len() != values.len() {
            return Err(SeriesError::LengthMismatch);
        }
        let n = index.len();
        let mut i: usize = 1;
        while i < n
            invariant
                1 <= i,
                i <= n || n == 0,
                n == index@.len(),
                index@.len() == values@.len(),
                forall|j: int| 0 < j < i && j < n ==> index@[j - 1] < #[trigger] index@[j],
            decreases n - i,
        {
            if index[i] <= index[i - 1] {
                proof {
                    assert(!strictly_increasing(index@)) by {
                        if strictly_increasing(index@) {
                            assert(index@[i - 1] < index@[i as int]);
                        }
                    }
                }
                return Err(SeriesError::NonMonotonicIndex);
            }
            i += 1;
        }
        proof {
            lemma_adjacent_implies_strictly_increasing(index@);
        }
        Ok(TimeSeries { index: DateTimeIndex::new(index), values })
    }

    /// Create a time series from a stream of (timestamp, value) records. The
    /// stream is truncated to the longest prefix whose timestamps are
    /// strictly increasing, under the same best-effort policy as `new`.
    pub fn from_datapoints(datapoints: Vec<DataPoint>) -> (r: TimeSeries)
        ensures
            r@ == normalized(datapoints@),
            r@.len() == increasing_prefix_len(stamps_of(datapoints@)),
            forall|j: int| 0 <= j < r@.len() ==> r.timestamps()[j] == datapoints@[j].timestamp
                && r.samples()[j] == #[trigger] datapoints@[j].value,
    {
        let n = datapoints.len();
        let mut stamps: Vec<i64> = Vec::new();
        let mut i: usize = 0;
        while i < n
            invariant
                i <= n,
                n == datapoints@.len(),
                stamps@.len() == i,
                forall|j: int| 0 <= j < i ==> stamps@[j] == stamps_of(datapoints@)[j],
            decreases n - i,
        {
            stamps.push(datapoints[i].timestamp);
            i += 1;
        }
        proof {
            assert(stamps@ =~= stamps_of(datapoints@));
        }
        let k = increasing_prefix(&stamps);
        proof {
            lemma_increasing_prefix_properties(stamps@);
        }
        let mut index: Vec<i64> = Vec::new();
        let mut values: Vec<u64> = Vec::new();
        let mut i: usize = 0;
        while i < k
            invariant
                i <= k,
                k <= n,
                n == datapoints@.len(),
                index@.len() == i,
                values@.len() == i,
                forall|j: int| 0 <= j < i ==> index@[j] == #[trigger] datapoints@[j].timestamp,
                forall|j: int| 0 <= j < i ==> values@[j] == #[trigger] datapoints@[j].value,
            decreases k - i,
        {
            index.push(datapoints[i].timestamp);
            values.push(datapoints[i].value);
            i += 1;
        }
        proof {
            let s = stamps_of(datapoints@);
            assert(index@ =~= s.take(k as int));
            assert forall|j: int| 0 < j < index@.len() implies index@[j - 1] < #[trigger] index@[j] by {
                assert(s[j - 1] < s[j]);
            }
            lemma_adjacent_implies_strictly_increasing(index@);
        }
        let r = TimeSeries { index: DateTimeIndex::new(index), values };
        proof {
            assert forall|j: int| 0 <= j < k implies r@[j] == datapoints@.take(k as int)[j] by {
                assert(index@[j] == datapoints@[j].timestamp);
                assert(values@[j] == datapoints@[j].value);
            }
            assert(r@ =~= datapoints@.take(k as int));
        }
        r
    }

    /// Number of data points in the series.
    pub fn len(&self) -> (r: usize)
        ensures
            r == self@.len(),
    {
        self.index.len()
    }

    /// Number of data points in the series; the same count as `len`.
    pub fn length(&self) -> (r: usize)
        ensures
            r == self@.len(),
    {
        self.len()
    }

    /// Borrow the ordered index of the series.
    pub fn index(&self) -> (r: &DateTimeIndex)
        ensures
            r@ == self.timestamps(),
    {
        &self.index
    }

    /// Borrow the sample words of the series, in index order.
    pub fn values(&self) -> (r: &Vec<u64>)
        ensures
            r@ == self.samples(),
    {
        &self.values
    }

    /// The data point at position `pos`, or `None` when `pos` is out of
    /// range.
    pub fn nth(&self, pos: usize) -> (r: Option<DataPoint>)
        ensures
            pos < self@.len() ==> r == Some(self@[pos as int]),
            pos >= self@.len() ==> r is None,
    {
        proof {
            use_type_invariant(self);
        }
        if pos < self.index.values.len() {
            Some(DataPoint::new(self.index.values[pos], self.values[pos]))
        } else {
            None
        }
    }
}

/// The position of the first timestamp in `s` that strictly exceeds `t`, or
/// the length of `s` when no timestamp does.
pub open spec fn first_exceeding(s: Seq<i64>, t: i64) -> nat
    decreases s.len(),
{
    if s.len() == 0 {
        0
    } else if t < s[0] {
        0
    } else {
        (1 + first_exceeding(s.skip(1), t)) as nat
    }
}

/// `first_exceeding` is the unique cut: everything before it is at most `t`,
/// and the element at it (if any) exceeds `t`.
pub proof fn lemma_first_exceeding_is(s: Seq<i64>, t: i64, k: int)
    requires
        0 <= k <= s.len(),
        forall|j: int| 0 <= j < k ==> #[trigger] s[j] <= t,
        k < s.len() ==> t < s[k],
    ensures
        first_exceeding(s, t) == k,
    decreases s.len(),
{
    if s.len() == 0 {
    } else if t < s[0] {
        if k >= 1 {
            assert(s[0] <= t);
        }
    } else {
        assert(k >= 1);
        let u = s.skip(1);
        assert forall|j: int| 0 <= j < k - 1 implies #[trigger] u[j] <= t by {
            assert(s[j + 1] <= t);
        }
        lemma_first_exceeding_is(u, t, k - 1);
    }
}

/// Step-function lookup over parallel sequences: the value most recently in
/// effect at time `t`, or the zero word when `t` precedes all timestamps.
pub open spec fn value_at(index: Seq<i64>, values: Seq<u64>, t: i64) -> u64 {
    let p = first_exceeding(index, t);
    if p == 0 {
        0u64
    } else {
        values[p - 1]
    }
}

impl TimeSeries {
    /// Step-function lookup by timestamp: the value of the most recent data
    /// point at or before `timestamp`. A query before the first timestamp
    /// yields the zero word — a series holds no information before its start,
    /// and that case is answered with a defined default rather than a
    /// failure.
    pub fn at(&self, timestamp: i64) -> (r: u64)
        ensures
            r == value_at(self.timestamps(), self.samples(), timestamp),
            self@.len() == 0 || timestamp < self.timestamps()[0] ==> r == 0,
            forall|j: int|
                0 <= j < self@.len() && #[trigger] self.timestamps()[j] <= timestamp && (j == self@.len()
                    - 1 || timestamp < self.timestamps()[j + 1]) ==> r == self.samples()[j],
    {
        proof {
            use_type_invariant(self);
        }
        let n = self.index.values.len();
        let mut pos: usize = 0;
        while pos < n && self.index.values[pos] <= timestamp
            invariant
                pos <= n,
                n == self.timestamps().len(),
                self.well_formed(),
                forall|j: int| 0 <= j < pos ==> #[trigger] self.timestamps()[j] <= timestamp,
            decreases n - pos,
        {
            pos += 1;
        }
        proof {
            lemma_first_exceeding_is(self.timestamps(), timestamp, pos as int);
            assert forall|j: int|
                0 <= j < self@.len() && #[trigger] self.timestamps()[j] <= timestamp && (j == self@.len()
                    - 1 || timestamp < self.timestamps()[j + 1]) implies j == pos - 1 by {
                if j <= pos - 2 {
                    assert(self.timestamps()[j + 1] <= timestamp);
                } else if j >= pos {
                    if pos < n {
                        if j > pos {
                            assert(self.timestamps()[pos as int] < self.timestamps()[j]);
                        }
                        assert(timestamp < self.timestamps()[j]);
                    }
                }
            }
        }
        if pos > 0 {
            self.values[pos - 1]
        } else {
            0
        }
    }
}

/// The classic two-way merge-join of two record streams ordered by timestamp:
/// at each step the smaller current timestamp is emitted; on a collision the
/// left stream's point is kept and the right one's is discarded; an exhausted
/// stream lets the other drain.
pub open spec fn merge_by_timestamp(a: Seq<DataPoint>, b: Seq<DataPoint>) -> Seq<DataPoint>
    decreases a.len() + b.len(),
{
    if a.len() == 0 {
        b
    } else if b.len() == 0 {
        a
    } else if a[0].timestamp == b[0].timestamp {
        seq![a[0]] + merge_by_timestamp(a.skip(1), b.skip(1))
    } else if a[0].timestamp < b[0].timestamp {
        seq![a[0]] + merge_by_timestamp(a.skip(1), b)
    } else {
        seq![b[0]] + merge_by_timestamp(a, b.skip(1))
    }
}

proof fn lemma_merge_take_left(a: Seq<DataPoint>, b: Seq<DataPoint>)
    requires
        a.len() > 0,
        b.len() == 0 || a[0].timestamp < b[0].timestamp,
    ensures
        merge_by_timestamp(a, b) == seq![a[0]] + merge_by_timestamp(a.skip(1), b),
{
    if b.len() == 0 {
        assert(merge_by_timestamp(a.skip(1), b) =~= a.skip(1));
        assert(a =~= seq![a[0]] + a.skip(1));
    }
}

proof fn lemma_merge_take_right(a: Seq<DataPoint>, b: Seq<DataPoint>)
    requires
        b.len() > 0,
        a.len() == 0 || b[0].timestamp < a[0].timestamp,
    ensures
        merge_by_timestamp(a, b) == seq![b[0]] + merge_by_timestamp(a, b.skip(1)),
{
    if a.len() == 0 {
        assert(merge_by_timestamp(a, b.skip(1)) =~= b.skip(1));
        assert(b =~= seq![b[0]] + b.skip(1));
    }
}

proof fn lemma_merge_take_both(a: Seq<DataPoint>, b: Seq<DataPoint>)
    requires
        a.len() > 0,
        b.len() > 0,
        a[0].timestamp == b[0].timestamp,
    ensures
        merge_by_timestamp(a, b) == seq![a[0]] + merge_by_timestamp(a.skip(1), b.skip(1)),
{
}

/// Dropping the first record drops the first timestamp.
proof fn lemma_stamps_skip(a: Seq<DataPoint>)
    requires
        a.len() > 0,
    ensures
        stamps_of(a.skip(1)) == stamps_of(a).skip(1),
{
    assert(stamps_of(a.skip(1)) =~= stamps_of(a).skip(1));
}

/// A strictly increasing sequence stays strictly increasing when its first
/// element is dropped.
proof fn lemma_increasing_skip(s: Seq<i64>)
    requires
        strictly_increasing(s),
        s.len() > 0,
    ensures
        strictly_increasing(s.skip(1)),
{
    assert forall|i: int, j: int| 0 <= i < j < s.skip(1).len() implies s.skip(1)[i] < s.skip(1)[j] by {
        assert(s[i + 1] < s[j + 1]);
    }
}

/// Putting an element below everything in a strictly increasing sequence
/// keeps it strictly increasing.
proof fn lemma_cons_increasing(t0: i64, s: Seq<i64>)
    requires
        strictly_increasing(s),
        s.len() > 0 ==> t0 < s[0],
    ensures
        strictly_increasing(seq![t0] + s),
{
    let c = seq![t0] + s;
    assert forall|i: int, j: int| 0 <= i < j < c.len() implies c[i] < c[j] by {
        if i == 0 {
            assert(c[j] == s[j - 1]);
            if j - 1 > 0 {
                assert(s[0] < s[j - 1]);
            }
        } else {
            assert(c[i] == s[i - 1]);
            assert(c[j] == s[j - 1]);
        }
    }
}

/// Merging keeps the order: the merge of two strictly increasing streams is
/// strictly increasing, it is empty only when both streams are, a merge with
/// an empty stream is the other stream, and a merge of two non-empty streams
/// starts at the smaller of their two heads.
pub proof fn lemma_merge_preserves_increase(a: Seq<DataPoint>, b: Seq<DataPoint>)
    requires
        strictly_increasing(stamps_of(a)),
        strictly_increasing(stamps_of(b)),
    ensures
        strictly_increasing(stamps_of(merge_by_timestamp(a, b))),
        merge_by_timestamp(a, b).len() > 0 <==> a.len() > 0 || b.len() > 0,
        a.len() == 0 ==> merge_by_timestamp(a, b) == b,
        b.len() == 0 ==> merge_by_timestamp(a, b) == a,
        a.len() > 0 && b.len() > 0 ==> merge_by_timestamp(a, b)[0].timestamp == a[0].timestamp
            || merge_by_timestamp(a, b)[0].timestamp == b[0].timestamp,
        a.len() > 0 && b.len() > 0 ==> merge_by_timestamp(a, b)[0].timestamp <= a[0].timestamp
            && merge_by_timestamp(a, b)[0].timestamp <= b[0].timestamp,
    decreases a.len() + b.len(),
{
    let m = merge_by_timestamp(a, b);
    if a.len() == 0 || b.len() == 0 {
    } else {
        lemma_stamps_skip(a);
        lemma_increasing_skip(stamps_of(a));
        lemma_stamps_skip(b);
        lemma_increasing_skip(stamps_of(b));
        let sa = a.skip(1);
        let sb = b.skip(1);
        assert(sa.len() > 0 ==> sa[0].timestamp == stamps_of(a)[1] && stamps_of(a)[0] < stamps_of(
            a,
        )[1]);
        assert(sb.len() > 0 ==> sb[0].timestamp == stamps_of(b)[1] && stamps_of(b)[0] < stamps_of(
            b,
        )[1]);
        if a[0].timestamp == b[0].timestamp {
            lemma_merge_preserves_increase(sa, sb);
            let rest = merge_by_timestamp(sa, sb);
            if rest.len() > 0 {
                if sa.len() == 0 && sb.len() == 0 {
                    assert(false);
                } else if sa.len() > 0 && sb.len() == 0 {
                    assert(rest == sa);
                } else if sa.len() == 0 && sb.len() > 0 {
                    assert(rest == sb);
                }
                assert(a[0].timestamp < rest[0].timestamp);
            }
            assert(stamps_of(m) =~= seq![a[0].timestamp] + stamps_of(rest));
            lemma_cons_increasing(a[0].timestamp, stamps_of(rest));
        } else if a[0].timestamp < b[0].timestamp {
            lemma_merge_preserves_increase(sa, b);
            let rest = merge_by_timestamp(sa, b);
            if rest.len() > 0 {
                if sa.len() == 0 {
                    assert(rest == b);
                }
                assert(a[0].timestamp < rest[0].timestamp);
            }
            assert(stamps_of(m) =~= seq![a[0].timestamp] + stamps_of(rest));
            lemma_cons_increasing(a[0].timestamp, stamps_of(rest));
        } else {
            lemma_merge_preserves_increase(a, sb);
            let rest = merge_by_timestamp(a, sb);
            if rest.len() > 0 {
                if sb.len() == 0 {
                    assert(rest == a);
                }
                assert(b[0].timestamp < rest[0].timestamp);
            }
            assert(stamps_of(m) =~= seq![b[0].timestamp] + stamps_of(rest));
            lemma_cons_increasing(b[0].timestamp, stamps_of(rest));
        }
    }
}

impl TimeSeries {
    /// The timestamps read off the series' view are the series' timestamps.
    pub proof fn lemma_stamps_of_view(self)
        requires
            self.well_formed(),
        ensures
            stamps_of(self@) == self.timestamps(),
    {
        assert(stamps_of(self@) =~= self.timestamps());
    }

    /// Merge two series into one holding the data points of both, ordered by
    /// timestamp. Where both series hold a point with the same timestamp, the
    /// point of `self` wins and `other`'s value is discarded.
    pub fn merge(&self, other: &TimeSeries) -> (r: TimeSeries)
        ensures
            r@ == merge_by_timestamp(self@, other@),
    {
        proof {
            use_type_invariant(self);
            use_type_invariant(other);
        }
        let ghost a = self@;
        let ghost b = other@;
        let n1 = self.len();
        let n2 = other.len();
        let mut output: Vec<DataPoint> = Vec::new();
        let mut pos1: usize = 0;
        let mut pos2: usize = 0;
        proof {
            assert(a.skip(0) =~= a);
            assert(b.skip(0) =~= b);
        }
        while pos1 < n1 || pos2 < n2
            invariant
                pos1 <= n1,
                pos2 <= n2,
                n1 == a.len(),
                n2 == b.len(),
                a == self@,
                b == other@,
                output@ + merge_by_timestamp(a.skip(pos1 as int), b.skip(pos2 as int))
                    == merge_by_timestamp(a, b),
            decreases n1 - pos1 + n2 - pos2,
        {
            let ghost prev = output@;
            let ghost ra = a.skip(pos1 as int);
            let ghost rb = b.skip(pos2 as int);
            if pos1 == n1 {
                let dp = other.nth(pos2).unwrap();
                output.push(dp);
                proof {
                    assert(rb[0] == dp);
                    lemma_merge_take_right(ra, rb);
                    assert(rb.skip(1) =~= b.skip(pos2 + 1));
                    assert(output@ + merge_by_timestamp(ra, rb.skip(1)) =~= prev + (seq![dp]
                        + merge_by_timestamp(ra, rb.skip(1))));
                }
                pos2 += 1;
            } else if pos2 == n2 {
                let dp = self.nth(pos1).unwrap();
                output.push(dp);
                proof {
                    assert(ra[0] == dp);
                    lemma_merge_take_left(ra, rb);
                    assert(ra.skip(1) =~= a.skip(pos1 + 1));
                    assert(output@ + merge_by_timestamp(ra.skip(1), rb) =~= prev + (seq![dp]
                        + merge_by_timestamp(ra.skip(1), rb)));
                }
                pos1 += 1;
            } else {
                let dp1 = self.nth(pos1).unwrap();
                let dp2 = other.nth(pos2).unwrap();
                proof {
                    assert(ra[0] == dp1);
                    assert(rb[0] == dp2);
                }
                if dp1.timestamp == dp2.timestamp {
                    output.push(dp1);
                    proof {
                        lemma_merge_take_both(ra, rb);
                        assert(ra.skip(1) =~= a.skip(pos1 + 1));
                        assert(rb.skip(1) =~= b.skip(pos2 + 1));
                        assert(output@ + merge_by_timestamp(ra.skip(1), rb.skip(1)) =~= prev + (
                        seq![dp1] + merge_by_timestamp(ra.skip(1), rb.skip(1))));
                    }
                    pos1 += 1;
                    pos2 += 1;
                } else if dp1.timestamp < dp2.timestamp {
                    output.push(dp1);
                    proof {
                        lemma_merge_take_left(ra, rb);
                        assert(ra.skip(1) =~= a.skip(pos1 + 1));
                        assert(output@ + merge_by_timestamp(ra.skip(1), rb) =~= prev + (seq![dp1]
                            + merge_by_timestamp(ra.skip(1), rb)));
                    }
                    pos1 += 1;
                } else {
                    output.push(dp2);
                    proof {
                        lemma_merge_take_right(ra, rb);
                        assert(rb.skip(1) =~= b.skip(pos2 + 1));
                        assert(output@ + merge_by_timestamp(ra, rb.skip(1)) =~= prev + (seq![dp2]
                            + merge_by_timestamp(ra, rb.skip(1))));
                    }
                    pos2 += 1;
                }
            }
        }
        proof {
            assert(a.skip(n1 as int).len() == 0);
            assert(merge_by_timestamp(a.skip(n1 as int), b.skip(n2 as int)) =~= b.skip(n2 as int));
            assert(output@ =~= merge_by_timestamp(a, b));
            self.lemma_stamps_of_view();
            other.lemma_stamps_of_view();
            lemma_merge_preserves_increase(a, b);
            let s = stamps_of(output@);
            assert forall|j: int| 0 < j < output@.len() implies s[j - 1] < #[trigger] s[j] by {}
            if output@.len() > 0 {
                lemma_increasing_prefix_len_is(s, s.len() as int);
            } else {
                lemma_increasing_prefix_len_is(s, 0);
            }
        }
        let r = TimeSeries::from_datapoints(output);
        proof {
            assert(r@ =~= merge_by_timestamp(a, b));
        }
        r
    }
}

impl TimeSeries {
    /// Create a cursor over the data points, starting at the first one. The
    /// cursor borrows the series, so the walk can be restarted at any time by
    /// asking for a fresh cursor.
    pub fn iter(&self) -> (r: TimeSeriesIter<'_>)
        ensures
            r.items() == self@,
            r.position() == 0,
    {
        TimeSeriesIter { series: self, pos: 0 }
    }
}

/// A restartable forward cursor over the data points of a series, walked in
/// index order.
pub struct TimeSeriesIter<'a> {
    series: &'a TimeSeries,
    pos: usize,
}

impl TimeSeriesIter<'_> {
    /// The data points the cursor walks over.
    pub closed spec fn items(self) -> Seq<DataPoint> {
        self.series@
    }

    /// How many data points the cursor has already handed out.
    pub closed spec fn position(self) -> int {
        self.pos as int
    }

    /// The next data point, or `None` once all have been handed out.
    pub fn next(&mut self) -> (r: Option<DataPoint>)
        ensures
            final(self).items() == old(self).items(),
            old(self).position() < old(self).items().len() ==> {
                &&& r == Some(old(self).items()[old(self).position()])
                &&& final(self).position() == old(self).position() + 1
            },
            old(self).position() >= old(self).items().len() ==> {
                &&& r is None
                &&& final(self).position() == old(self).position()
            },
    {
        let n = self.series.len();
        if self.pos < n {
            let r = self.series.nth(self.pos);
            self.pos += 1;
            r
        } else {
            None
        }
    }
}

impl TimeSeries {
    /// Apply a function to every sample word, keeping the index unchanged.
    /// Each output word is a possible result of `f` on the input word at the
    /// same position.
    pub fn map_values<F: Fn(u64) -> u64>(&self, f: F) -> (r: TimeSeries)
        requires
            forall|i: int| 0 <= i < self@.len() ==> call_requires(f, (#[trigger] self.samples()[i],)),
        ensures
            r.timestamps() == self.timestamps(),
            r.samples().len() == self.samples().len(),
            forall|i: int|
                0 <= i < self@.len() ==> call_ensures(
                    f,
                    (self.samples()[i],),
                    #[trigger] r.samples()[i],
                ),
    {
        proof {
            use_type_invariant(self);
        }
        let n = self.values.len();
        let mut mapped: Vec<u64> = Vec::new();
        let mut i: usize = 0;
        while i < n
            invariant
                i <= n,
                n == self.samples().len(),
                mapped@.len() == i,
                forall|j: int| 0 <= j < n ==> call_requires(f, (#[trigger] self.samples()[j],)),
                forall|j: int|
                    0 <= j < i ==> call_ensures(f, (self.samples()[j],), #[trigger] mapped@[j]),
            decreases n - i,
        {
            mapped.push(f(self.values[i]));
            i += 1;
        }
        let r = TimeSeries { index: self.index.clone(), values: mapped };
        r
    }

    /// Apply a function to every data point, given both its timestamp and its
    /// sample word, producing the new sample word at the same position; the
    /// index is unchanged.
    pub fn map<F: Fn(i64, u64) -> u64>(&self, f: F) -> (r: TimeSeries)
        requires
            forall|i: int|
                0 <= i < self@.len() ==> call_requires(
                    f,
                    (#[trigger] self.timestamps()[i], self.samples()[i]),
                ),
        ensures
            r.timestamps() == self.timestamps(),
            r.samples().len() == self.samples().len(),
            forall|i: int|
                0 <= i < self@.len() ==> call_ensures(
                    f,
                    (self.timestamps()[i], self.samples()[i]),
                    #[trigger] r.samples()[i],
                ),
    {
        proof {
            use_type_invariant(self);
        }
        let n = self.values.len();
        let mut mapped: Vec<u64> = Vec::new();
        let mut i: usize = 0;
        while i < n
            invariant
                i <= n,
                n == self.samples().len(),
                n == self.timestamps().len(),
                mapped@.len() == i,
                forall|j: int|
                    0 <= j < n ==> call_requires(
                        f,
                        (#[trigger] self.timestamps()[j], self.samples()[j]),
                    ),
                forall|j: int|
                    0 <= j < i ==> call_ensures(
                        f,
                        (self.timestamps()[j], self.samples()[j]),
                        #[trigger] mapped@[j],
                    ),
            decreases n - i,
        {
            mapped.push(f(self.index.values[i], self.values[i]));
            i += 1;
        }
        let r = TimeSeries { index: self.index.clone(), values: mapped };
        r
    }

    /// The first difference of the series: each output word is `delta` applied
    /// to a sample word and its predecessor, paired with the index shifted by
    /// one (the first timestamp is dropped). A series of fewer than two
    /// points gives the empty series. The subtraction on sample words is the
    /// caller's, handed in as `sub`.
    pub fn diff<F: Fn(u64, u64) -> u64>(&self, delta: F) -> (r: TimeSeries)
        requires
            forall|i: int|
                0 < i < self@.len() ==> call_requires(
                    delta,
                    (#[trigger] self.samples()[i], self.samples()[i - 1]),
                ),
        ensures
            self@.len() < 2 ==> r@ == Seq::<DataPoint>::empty(),
            self@.len() >= 2 ==> r.timestamps() == self.timestamps().skip(1),
            self@.len() >= 2 ==> r.samples().len() == self@.len() - 1,
            self@.len() >= 2 ==> forall|i: int|
                0 <= i < self@.len() - 1 ==> call_ensures(
                    delta,
                    (self.samples()[i + 1], self.samples()[i]),
                    #[trigger] r.samples()[i],
                ),
    {
        proof {
            use_type_invariant(self);
        }
        let n = self.values.len();
        if n < 2 {
            return TimeSeries::empty();
        }
        let mut index: Vec<i64> = Vec::new();
        let mut values: Vec<u64> = Vec::new();
        let mut i: usize = 1;
        while i < n
            invariant
                1 <= i <= n,
                n >= 2,
                n == self.samples().len(),
                n == self.timestamps().len(),
                self.well_formed(),
                index@.len() == i - 1,
                values@.len() == i - 1,
                forall|j: int|
                    0 < j < n ==> call_requires(
                        delta,
                        (#[trigger] self.samples()[j], self.samples()[j - 1]),
                    ),
                forall|j: int| 0 <= j < i - 1 ==> index@[j] == #[trigger] self.timestamps()[j + 1],
                forall|j: int|
                    0 <= j < i - 1 ==> call_ensures(
                        delta,
                        (self.samples()[j + 1], self.samples()[j]),
                        #[trigger] values@[j],
                    ),
            decreases n - i,
        {
            index.push(self.index.values[i]);
            values.push(delta(self.values[i], self.values[i - 1]));
            i += 1;
        }
        proof {
            assert(index@ =~= self.timestamps().skip(1));
            lemma_increasing_skip(self.timestamps());
        }
        let r = TimeSeries { index: DateTimeIndex::new(index), values };
        r
    }
}

/// Anything that can be turned into a time series.
pub trait ToSeries {
    /// The data points the conversion produces.
    spec fn series_view(&self) -> Seq<DataPoint>;

    /// Convert into a time series holding `series_view`.
    fn to_series(&self) -> (r: TimeSeries)
        ensures
            r@ == self.series_view(),
    ;
}

impl ToSeries for DateTimeIndex {
    /// An index becomes a series over itself: each timestamp is paired with a
    /// sample word holding that timestamp's value, and the stream is
    /// normalized like any record stream.
    open spec fn series_view(&self) -> Seq<DataPoint> {
        normalized(Seq::new(self@.len(), |i: int| DataPoint { timestamp: self@[i], value: self@[i] as u64 }))
    }

    fn to_series(&self) -> (r: TimeSeries) {
        let n = self.values.len();
        let mut points: Vec<DataPoint> = Vec::new();
        let mut i: usize = 0;
        while i < n
            invariant
                i <= n,
                n == self@.len(),
                points@.len() == i,
                forall|j: int|
                    0 <= j < i ==> points@[j] == (DataPoint {
                        timestamp: self@[j],
                        value: #[trigger] (self@[j] as u64),
                    }),
            decreases n - i,
        {
            let t = self.values[i];
            points.push(DataPoint::new(t, t as u64));
            i += 1;
        }
        let r = TimeSeries::from_datapoints(points);
        proof {
            assert(points@ =~= Seq::new(
                self@.len(),
                |i: int| DataPoint { timestamp: self@[i], value: self@[i] as u64 },
            ));
        }
        r
    }
}

impl TimeSeries {
    /// Create a series over a uniform grid of timestamps: the first point at
    /// `timestamp`, each following one `resolution` milliseconds later. The
    /// grid must stay within the timestamp range; a non-positive resolution
    /// gives a grid that the usual truncation shrinks.
    pub fn from_timestamp(timestamp: i64, resolution: i64, values: Vec<u64>) -> (r: TimeSeries)
        requires
            forall|i: int|
                0 <= i < values@.len() ==> i64::MIN <= timestamp + #[trigger] (i * resolution) <= i64::MAX,
        ensures
            r.timestamps() == uniform_grid(timestamp, resolution, values@.len()).take(
                normalized_len(uniform_grid(timestamp, resolution, values@.len()), values@) as int,
            ),
            r.samples() == values@.take(
                normalized_len(uniform_grid(timestamp, resolution, values@.len()), values@) as int,
            ),
            resolution >= 1 ==> r.timestamps() == uniform_grid(
                timestamp,
                resolution,
                values@.len(),
            ) && r.samples() == values@,
    {
        let ghost grid = uniform_grid(timestamp, resolution, values@.len());
        let n = values.len();
        let mut index: Vec<i64> = Vec::new();
        let mut i: usize = 0;
        while i < n
            invariant
                i <= n,
                n == values@.len(),
                grid == uniform_grid(timestamp, resolution, values@.len()),
                forall|j: int|
                    0 <= j < values@.len() ==> i64::MIN <= timestamp + #[trigger] (j * resolution) <= i64::MAX,
                index@.len() == i,
                forall|j: int| 0 <= j < i ==> index@[j] == grid[j],
            decreases n - i,
        {
            let t = timestamp as i128 + (i as i128) * (resolution as i128);
            proof {
                assert(t == timestamp + (i as int) * resolution);
            }
            index.push(t as i64);
            i += 1;
        }
        proof {
            assert(index@ =~= grid);
        }
        let r = TimeSeries::new(index, values);
        proof {
            if resolution >= 1 {
                assert forall|j: int| 0 < j < grid.len() implies grid[j - 1] < #[trigger] grid[j] by {
                    assert(j * resolution == (j - 1) * resolution + resolution) by (nonlinear_arith);
                }
                if grid.len() > 0 {
                    lemma_increasing_prefix_len_is(grid, grid.len() as int);
                } else {
                    lemma_increasing_prefix_len_is(grid, 0);
                }
                assert(r.timestamps() =~= grid);
                assert(r.samples() =~= values@);
            }
        }
        r
    }
}

/// A uniform grid of `n` timestamps starting at `start` and stepping by
/// `step`. The addition is exact only when every grid point fits in the
/// timestamp range.
pub open spec fn uniform_grid(start: i64, step: i64, n: nat) -> Seq<i64> {
    Seq::new(n, |i: int| (start + i * step) as i64)
}

impl TimeSeries {
    /// How the view, the timestamps and the samples of a well-formed series
    /// fit together: all three have the same length, the timestamps are
    /// strictly increasing, and the view pairs them up pointwise.
    pub proof fn lemma_series_shape(self)
        requires
            self.well_formed(),
        ensures
            self@.len() == self.timestamps().len(),
            self@.len() == self.samples().len(),
            strictly_increasing(self.timestamps()),
            forall|i: int|
                0 <= i < self@.len() ==> self@[i] == (DataPoint {
                    timestamp: self.timestamps()[i],
                    value: self.samples()[i],
                }),
    {
    }

    /// The view determines the series: two well-formed series with the same
    /// data points have the same timestamps and the same samples.
    pub proof fn lemma_equal_views(self, other: TimeSeries)
        requires
            self.well_formed(),
            other.well_formed(),
            self@ == other@,
        ensures
            self.timestamps() == other.timestamps(),
            self.samples() == other.samples(),
    {
        assert forall|i: int| 0 <= i < self@.len() implies #[trigger] self.timestamps()[i]
            == other.timestamps()[i] by {
            assert(self@[i] == other@[i]);
            assert(self@[i].timestamp == self.timestamps()[i]);
            assert(other@[i].timestamp == other.timestamps()[i]);
        }
        assert forall|i: int| 0 <= i < self@.len() implies #[trigger] self.samples()[i]
            == other.samples()[i] by {
            assert(self@[i] == other@[i]);
            assert(self@[i].value == self.samples()[i]);
            assert(other@[i].value == other.samples()[i]);
        }
        assert(self.timestamps() =~= other.timestamps());
        assert(self.samples() =~= other.samples());
    }
}

impl PartialEq for TimeSeries {
    /// Two series are equal when they hold the same timestamps and the same
    /// sample words, position by position.
    fn eq(&self, other: &Self) -> (r: bool) {
        let same_index = self.index == other.index;
        let same_values = self.values == other.values;
        proof {
            if self.values@.len() == other.values@.len() && (forall|i: int|
                0 <= i < self.values@.len() ==> self.values@[i] == other.values@[i]) {
                assert(self.values@ =~= other.values@);
            }
        }
        same_index && same_values
    }
}

impl vstd::std_specs::cmp::PartialEqSpecImpl for TimeSeries {
    open spec fn obeys_eq_spec() -> bool {
        true
    }

    open spec fn eq_spec(&self, other: &TimeSeries) -> bool {
        self.timestamps() == other.timestamps() && self.samples() == other.samples()
    }
}

/// The length of the longest strictly increasing prefix of the timestamps in
/// `v`.
fn increasing_prefix(v: &Vec<i64>) -> (k: usize)
    ensures
        k == increasing_prefix_len(v@),
{
    let n = v.len();
    if n == 0 {
        proof {
            lemma_increasing_prefix_len_is(v@, 0);
        }
        return 0;
    }
    let mut k: usize = 1;
    while k < n && v[k - 1] < v[k]
        invariant
            1 <= k <= n,
            n == v@.len(),
            forall|j: int| 0 < j < k ==> v@[j - 1] < #[trigger] v@[j],
        decreases n - k,
    {
        k += 1;
    }
    proof {
        lemma_increasing_prefix_len_is(v@, k as int);
    }
    k
}

} // verus!
