//! Laws of the series operations, stated over the mathematical model and
//! proved once and for all: lossless construction on well-ordered input,
//! exact truncation at the first violation, and the identities of merge.

use vstd::prelude::*;

use crate::index::strictly_increasing;
use crate::series::{
    increasing_prefix_len, lemma_increasing_prefix_len_is, merge_by_timestamp, normalized,
    normalized_len, stamps_of, DataPoint,
};

verus! {

/// Construction from parallel arrays is a lossless round-trip: when the
/// timestamps are strictly increasing and there are exactly as many values,
/// nothing is truncated and the series keeps both arrays whole.
pub proof fn lemma_construction_lossless(ts: Seq<i64>, vs: Seq<u64>)
    requires
        strictly_increasing(ts),
        ts.len() == vs.len(),
    ensures
        normalized_len(ts, vs) == ts.len(),
        ts.take(normalized_len(ts, vs) as int) == ts,
        vs.take(normalized_len(ts, vs) as int) == vs,
{
    assert forall|j: int| 0 < j < ts.len() implies ts[j - 1] < #[trigger] ts[j] by {}
    if ts.len() == 0 {
        lemma_increasing_prefix_len_is(ts, 0);
    } else {
        lemma_increasing_prefix_len_is(ts, ts.len() as int);
    }
    assert(ts.take(ts.len() as int) =~= ts);
    assert(vs.take(vs.len() as int) =~= vs);
}

/// Construction truncates exactly at the first violation: when the timestamps
/// increase strictly up to position `k` and fail to increase at `k`, the
/// series keeps exactly the first `k` points.
pub proof fn lemma_construction_truncates(ts: Seq<i64>, vs: Seq<u64>, k: int)
    requires
        ts.len() == vs.len(),
        1 <= k < ts.len(),
        forall|j: int| 0 < j < k ==> ts[j - 1] < #[trigger] ts[j],
        ts[k] <= ts[k - 1],
    ensures
        increasing_prefix_len(ts) == k,
        normalized_len(ts, vs) == k,
{
    lemma_increasing_prefix_len_is(ts, k);
}

/// A record stream whose timestamps are already strictly increasing is kept
/// whole by record construction: collecting a series' own points back through
/// the record constructor reproduces the series.
pub proof fn lemma_increasing_records_kept(dps: Seq<DataPoint>)
    requires
        strictly_increasing(stamps_of(dps)),
    ensures
        normalized(dps) == dps,
{
    let s = stamps_of(dps);
    assert forall|j: int| 0 < j < s.len() implies s[j - 1] < #[trigger] s[j] by {}
    if s.len() == 0 {
        lemma_increasing_prefix_len_is(s, 0);
    } else {
        lemma_increasing_prefix_len_is(s, s.len() as int);
    }
    assert(dps.take(dps.len() as int) =~= dps);
}

/// The empty series is the identity of merge, on either side.
pub proof fn lemma_merge_empty_identity(s: Seq<DataPoint>)
    ensures
        merge_by_timestamp(s, Seq::<DataPoint>::empty()) == s,
        merge_by_timestamp(Seq::<DataPoint>::empty(), s) == s,
{
}

/// Merging a series with itself collapses to the series: every timestamp
/// collides and the left point wins, so the result equals the input point by
/// point.
pub proof fn lemma_merge_idempotent(s: Seq<DataPoint>)
    ensures
        merge_by_timestamp(s, s) == s,
    decreases s.len(),
{
    if s.len() > 0 {
        lemma_merge_idempotent(s.skip(1));
        assert(s =~= seq![s[0]] + s.skip(1));
    }
}

} // verus!
