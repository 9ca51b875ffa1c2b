//! Downsampling a run history into a fixed number of classified display
//! buckets, and the per-website status summary behind the dashboard.
//!
//! The observed span (first run start to last run end) is divided into
//! equal-width closed bucket intervals. Boundaries are computed with integer
//! division, so consecutive buckets share their boundary point exactly and
//! the final bucket's upper bound is exactly the end of the span: the last
//! timestamp always lands inside the last bucket, with no widening needed.

use vstd::prelude::*;

use crate::client::CheckState;
use crate::db::{series_views, CheckSeries, SeriesView};
use crate::fmt::{format_ok_ratio, ok_ratio_chars};

verus! {

/// Bucket count of the dashboard status bar.
pub const BAR_ELEMS: usize = 100;

/// Classification of one display bucket by the mix of run states that
/// overlap it.
#[derive(Debug, PartialEq, Eq, Structural, Clone, Copy)]
pub enum BarClass {
    Green,
    Orange,
    Red,
    Unknown,
}

impl BarClass {
    /// The style-sheet class under which this bucket is rendered.
    pub fn as_class(&self) -> (r: &'static str)
        ensures
            *self == BarClass::Green ==> r@ == "check-result-green"@,
            *self == BarClass::Orange ==> r@ == "check-result-orange"@,
            *self == BarClass::Red ==> r@ == "check-result-red"@,
            *self == BarClass::Unknown ==> r@ == "check-result-unknown"@,
    {
        match self {
            BarClass::Green => "check-result-green",
            BarClass::Orange => "check-result-orange",
            BarClass::Red => "check-result-red",
            BarClass::Unknown => "check-result-unknown",
        }
    }
}

/// A downsampled status bar: one classification per bucket, and the observed
/// span it covers (absent when there were no runs at all).
#[derive(Debug)]
pub struct BarInfo {
    pub elems: Vec<BarClass>,
    pub first_time: Option<i64>,
    pub last_time: Option<i64>,
}

/// Input shape of the downsampler: runs are ordered by start and each is a
/// well-formed closed interval.
pub open spec fn wf_spans(runs: Seq<SeriesView>) -> bool {
    &&& forall|k: int| 0 <= k < runs.len() ==> #[trigger] runs[k].start <= runs[k].end
    &&& forall|i: int, j: int|
        #![trigger runs[i], runs[j]]
        0 <= i < j < runs.len() ==> runs[i].start <= runs[j].start
}

/// Width of the whole observed span.
pub open spec fn span_of(runs: Seq<SeriesView>) -> int {
    runs.last().end - runs[0].start
}

/// Lower bound of bucket `i`, relative to the start of the span.
pub open spec fn bucket_lo(span: int, n: int, i: int) -> int {
    i * span / n
}

/// Upper bound of bucket `i`, relative to the start of the span.
pub open spec fn bucket_hi(span: int, n: int, i: int) -> int {
    (i + 1) * span / n
}

/// Whether run `k` overlaps bucket `i`: its closed time range and the
/// bucket's closed range are not disjoint (two closed intervals are disjoint
/// exactly when one ends strictly before the other begins).
pub open spec fn run_overlaps_bucket(runs: Seq<SeriesView>, n: int, i: int, k: int) -> bool {
    let first = runs[0].start;
    runs[k].end - first >= bucket_lo(span_of(runs), n, i) && runs[k].start - first <= bucket_hi(
        span_of(runs),
        n,
        i,
    )
}

/// Whether some run of the given state overlaps bucket `i`.
pub open spec fn bucket_has_state(
    runs: Seq<SeriesView>,
    n: int,
    i: int,
    state: CheckState,
) -> bool {
    exists|k: int|
        0 <= k < runs.len() && #[trigger] run_overlaps_bucket(runs, n, i, k) && runs[k].state
            == state
}

/// Classification of bucket `i`: `Unknown` when no run overlaps it, `Green`
/// when only healthy runs do, `Red` when only unhealthy runs do, `Orange`
/// when both kinds do.
pub open spec fn bucket_class(runs: Seq<SeriesView>, n: int, i: int) -> BarClass {
    let ok = bucket_has_state(runs, n, i, CheckState::Healthy);
    let bad = bucket_has_state(runs, n, i, CheckState::Unhealthy);
    if ok && bad {
        BarClass::Orange
    } else if ok {
        BarClass::Green
    } else if bad {
        BarClass::Red
    } else {
        BarClass::Unknown
    }
}

/// Bucket boundaries tile the span exactly: the first bucket starts at the
/// span's start, consecutive buckets share their boundary point, and the
/// last bucket ends exactly at the span's end.
pub proof fn lemma_bucket_boundaries(span: int, n: int)
    requires
        n >= 1,
        span >= 0,
    ensures
        bucket_lo(span, n, 0) == 0,
        bucket_hi(span, n, n - 1) == span,
        forall|i: int| 0 <= i < n - 1 ==> bucket_lo(span, n, i + 1) == bucket_hi(span, n, i),
{
    vstd::arithmetic::div_mod::lemma_div_multiples_vanish(span, n);
    assert(n * span == ((n - 1) + 1) * span) by (nonlinear_arith);
}

/// Downsample coverage, relative form: every offset within the span lies in
/// some bucket's closed range.
pub proof fn lemma_downsample_coverage(span: int, n: int, t: int)
    requires
        n >= 1,
        0 <= t <= span,
    ensures
        exists|i: int|
            0 <= i < n && #[trigger] bucket_lo(span, n, i) <= t && t <= bucket_hi(span, n, i),
{
    lemma_bucket_boundaries(span, n);
    lemma_coverage_upto(span, n, n - 1, t);
}

proof fn lemma_coverage_upto(span: int, n: int, m: int, t: int)
    requires
        n >= 1,
        0 <= m < n,
        span >= 0,
        0 <= t,
        t <= bucket_hi(span, n, m),
    ensures
        exists|i: int|
            0 <= i <= m && #[trigger] bucket_lo(span, n, i) <= t && t <= bucket_hi(span, n, i),
    decreases m,
{
    if m == 0 {
        vstd::arithmetic::mul::lemma_mul_basics(span);
        vstd::arithmetic::div_mod::lemma_div_of0(n);
        assert(0 * span == 0);
        assert(bucket_lo(span, n, 0) == 0 as int / n);
        assert(bucket_lo(span, n, 0) == 0);
    } else if t <= bucket_hi(span, n, m - 1) {
        lemma_coverage_upto(span, n, m - 1, t);
    } else {
        assert(bucket_lo(span, n, m) == ((m - 1) + 1) * span / n == bucket_hi(span, n, m - 1));
        assert(bucket_lo(span, n, m) <= t && t <= bucket_hi(span, n, m));
    }
}

/// Downsample coverage: for a non-empty run list and any bucket count of at
/// least one, the union of the buckets' closed spans covers the whole
/// observed range, from the first run's start to the last run's end, with no
/// gaps (consecutive buckets share their boundary point).
pub proof fn lemma_downsample_coverage_runs(runs: Seq<SeriesView>, n: int, t: int)
    requires
        wf_spans(runs),
        runs.len() > 0,
        n >= 1,
        runs[0].start <= t <= runs.last().end,
    ensures
        exists|i: int|
            0 <= i < n && #[trigger] bucket_lo(span_of(runs), n, i) <= t - runs[0].start && t
                - runs[0].start <= bucket_hi(span_of(runs), n, i),
{
    assert(runs[0].start <= runs[runs.len() - 1].start <= runs[runs.len() - 1].end);
    lemma_downsample_coverage(span_of(runs), n, t - runs[0].start);
}

/// Whether two closed time ranges are disjoint: one ends strictly before the
/// other begins.
pub fn range_disjoint(a_start: i64, a_end: i64, b_start: i64, b_end: i64) -> (r: bool)
    ensures
        r == (a_end < b_start || a_start > b_end),
{
    a_end < b_start || a_start > b_end
}

/// Difference of two instants, as the width type.
fn sub_i64_u64(a: i64, b: i64) -> (r: u64)
    requires
        b <= a,
    ensures
        r == a - b,
{
    let wide: i128 = (a as i128) - (b as i128);
    wide as u64
}

/// Converts one website's time-ordered runs into a fixed-width sequence of
/// classified buckets for the status bar. The observed span is divided into
/// `classes` equal closed intervals; each bucket is classified by the mix of
/// run states overlapping it. With no runs at all there is no observed span:
/// every bucket is `Unknown` and the span bounds are absent.
pub fn checks_to_classes(checks_series: &Vec<CheckSeries>, classes: usize) -> (r: BarInfo)
    requires
        classes >= 1,
        wf_spans(series_views(checks_series@)),
    ensures
        r.elems@.len() == classes,
        checks_series@.len() == 0 ==> (forall|i: int|
            0 <= i < classes ==> r.elems@[i] == BarClass::Unknown) && r.first_time is None
            && r.last_time is None,
        checks_series@.len() > 0 ==> (forall|i: int|
            0 <= i < classes ==> r.elems@[i] == bucket_class(
                series_views(checks_series@),
                classes as int,
                i,
            )) && r.first_time == Some(checks_series@[0].request_time_range_start)
            && r.last_time == Some(
            checks_series@[checks_series@.len() - 1].request_time_range_end,
        ),
{
    let ghost views = series_views(checks_series@);
    let n = checks_series.len();
    if n == 0 {
        let mut elems: Vec<BarClass> = Vec::new();
        let mut i: usize = 0;
        while i < classes
            invariant
                0 <= i <= classes,
                elems@.len() == i,
                forall|m: int| 0 <= m < i ==> elems@[m] == BarClass::Unknown,
            decreases classes - i,
        {
            elems.push(BarClass::Unknown);
            i = i + 1;
        }
        return BarInfo { elems, first_time: None, last_time: None };
    }
    let first = checks_series[0].request_time_range_start;
    let last = checks_series[n - 1].request_time_range_end;
    proof {
        assert(views[0].start <= views[n - 1].start <= views[n - 1].end);
    }
    let span: u64 = sub_i64_u64(last, first);
    let mut elems: Vec<BarClass> = Vec::new();
    let mut i: usize = 0;
    while i < classes
        invariant
            0 <= i <= classes,
            classes >= 1,
            views == series_views(checks_series@),
            wf_spans(views),
            n == checks_series@.len(),
            n > 0,
            first == checks_series@[0].request_time_range_start,
            last == checks_series@[n - 1].request_time_range_end,
            first <= last,
            span == span_of(views),
            elems@.len() == i,
            forall|m: int| 0 <= m < i ==> elems@[m] == bucket_class(views, classes as int, m),
        decreases classes - i,
    {
        proof {
            assert((i as u128) * (span as u128) <= (u64::MAX as u128) * (u64::MAX as u128))
                by (nonlinear_arith)
                requires
                    i as u128 <= u64::MAX as u128,
                    span as u128 <= u64::MAX as u128,
            ;
            assert(((i + 1) as u128) * (span as u128) <= ((u64::MAX as u128) + 1) * (u64::MAX
                as u128)) by (nonlinear_arith)
                requires
                    (i + 1) as u128 <= (u64::MAX as u128) + 1,
                    span as u128 <= u64::MAX as u128,
            ;
        }
        let lo: u128 = (i as u128) * (span as u128) / (classes as u128);
        let hi: u128 = ((i as u128) + 1) * (span as u128) / (classes as u128);
        proof {
            assert(lo == bucket_lo(span as int, classes as int, i as int));
            assert(hi == bucket_hi(span as int, classes as int, i as int));
        }
        let mut any_ok = false;
        let mut any_bad = false;
        let mut k: usize = 0;
        while k < n
            invariant
                0 <= k <= n,
                n == checks_series@.len(),
                n > 0,
                views == series_views(checks_series@),
                wf_spans(views),
                0 <= i < classes,
                first == checks_series@[0].request_time_range_start,
                span == span_of(views),
                lo == bucket_lo(span as int, classes as int, i as int),
                hi == bucket_hi(span as int, classes as int, i as int),
                any_ok == exists|m: int|
                    0 <= m < k && #[trigger] run_overlaps_bucket(views, classes as int, i as int, m)
                        && views[m].state == CheckState::Healthy,
                any_bad == exists|m: int|
                    0 <= m < k && #[trigger] run_overlaps_bucket(views, classes as int, i as int, m)
                        && views[m].state == CheckState::Unhealthy,
            decreases n - k,
        {
            proof {
                assert(views[0].start <= views[k as int].start <= views[k as int].end);
            }
            let rel_s: u64 = sub_i64_u64(checks_series[k].request_time_range_start, first);
            let rel_e: u64 = sub_i64_u64(checks_series[k].request_time_range_end, first);
            let overlaps = (rel_e as u128) >= lo && (rel_s as u128) <= hi;
            proof {
                assert(overlaps == run_overlaps_bucket(views, classes as int, i as int, k as int));
            }
            if overlaps {
                match checks_series[k].result {
                    CheckState::Healthy => {
                        any_ok = true;
                    },
                    CheckState::Unhealthy => {
                        any_bad = true;
                    },
                }
            }
            k = k + 1;
        }
        let class = if any_ok && any_bad {
            BarClass::Orange
        } else if any_ok {
            BarClass::Green
        } else if any_bad {
            BarClass::Red
        } else {
            BarClass::Unknown
        };
        elems.push(class);
        i = i + 1;
    }
    BarInfo { elems, first_time: Some(first), last_time: Some(last) }
}

/// The website names occurring in a run list, in first-occurrence order.
pub open spec fn distinct_websites(s: Seq<SeriesView>) -> Seq<Seq<char>>
    decreases s.len(),
{
    if s.len() == 0 {
        Seq::empty()
    } else {
        let d = distinct_websites(s.drop_last());
        if d.contains(s.last().website) {
            d
        } else {
            d.push(s.last().website)
        }
    }
}

/// One website's runs, in the order they occur in the list.
pub open spec fn runs_of(s: Seq<SeriesView>, website: Seq<char>) -> Seq<SeriesView> {
    s.filter(|v: SeriesView| v.website == website)
}

/// A name occurs among the distinct websites exactly when some run holds it.
pub proof fn lemma_distinct_contains(s: Seq<SeriesView>, website: Seq<char>)
    ensures
        distinct_websites(s).contains(website) <==> exists|i: int|
            0 <= i < s.len() && #[trigger] s[i].website == website,
    decreases s.len(),
{
    if s.len() > 0 {
        let prefix = s.drop_last();
        let lw = s.last().website;
        let d_p = distinct_websites(prefix);
        let d_s = distinct_websites(s);
        lemma_distinct_contains(prefix, website);
        if d_s.contains(website) {
            if d_p.contains(lw) {
                let i = choose|i: int|
                    0 <= i < prefix.len() && #[trigger] prefix[i].website == website;
                assert(s[i].website == website);
            } else {
                let k = choose|k: int| 0 <= k < d_s.len() && d_s[k] == website;
                if k < d_p.len() {
                    assert(d_p[k] == website);
                    assert(d_p.contains(website));
                    let i = choose|i: int|
                        0 <= i < prefix.len() && #[trigger] prefix[i].website == website;
                    assert(s[i].website == website);
                } else {
                    assert(s[s.len() - 1].website == website);
                }
            }
        }
        if exists|i: int| 0 <= i < s.len() && #[trigger] s[i].website == website {
            let i = choose|i: int| 0 <= i < s.len() && #[trigger] s[i].website == website;
            if i == s.len() - 1 {
                if d_p.contains(lw) {
                    assert(d_s.contains(website));
                } else {
                    assert(d_s[d_s.len() - 1] == website);
                    assert(d_s.contains(website));
                }
            } else {
                assert(prefix[i].website == website);
                assert(d_p.contains(website));
                let k = choose|k: int| 0 <= k < d_p.len() && d_p[k] == website;
                assert(d_s[k] == website);
                assert(d_s.contains(website));
            }
        }
    }
}

/// The distinct website names are pairwise distinct.
pub proof fn lemma_distinct_unique(s: Seq<SeriesView>)
    ensures
        forall|i: int, j: int|
            0 <= i < j < distinct_websites(s).len() ==> #[trigger] distinct_websites(s)[i]
                != #[trigger] distinct_websites(s)[j],
    decreases s.len(),
{
    if s.len() > 0 {
        lemma_distinct_unique(s.drop_last());
        let d = distinct_websites(s.drop_last());
        if !d.contains(s.last().website) {
            assert forall|i: int, j: int|
                0 <= i < j < distinct_websites(s).len() implies #[trigger] distinct_websites(s)[i]
                != #[trigger] distinct_websites(s)[j] by {
                if j == distinct_websites(s).len() - 1 {
                    assert(d.contains(d[i]));
                }
            }
        }
    }
}

/// Where a run lands in a start-sorted list: after every run whose start is
/// not greater, so that runs with equal starts keep their relative order.
pub open spec fn series_insert_pos(s: Seq<SeriesView>, start: int) -> int
    decreases s.len(),
{
    if s.len() == 0 {
        0
    } else if s.last().start <= start {
        s.len() as int
    } else {
        series_insert_pos(s.drop_last(), start)
    }
}

/// Stable sort of runs by start time.
pub open spec fn stable_sort_by_start(s: Seq<SeriesView>) -> Seq<SeriesView>
    decreases s.len(),
{
    if s.len() == 0 {
        Seq::empty()
    } else {
        let sorted = stable_sort_by_start(s.drop_last());
        sorted.insert(series_insert_pos(sorted, s.last().start), s.last())
    }
}

/// Non-decreasing in start time.
pub open spec fn sorted_by_start(s: Seq<SeriesView>) -> bool {
    forall|i: int, j: int| #![trigger s[i], s[j]] 0 <= i < j < s.len() ==> s[i].start <= s[j].start
}

/// `series_insert_pos` splits a start-sorted list.
pub proof fn lemma_series_insert_pos(s: Seq<SeriesView>, start: int)
    ensures
        0 <= series_insert_pos(s, start) <= s.len(),
        forall|k: int| series_insert_pos(s, start) <= k < s.len() ==> #[trigger] s[k].start > start,
        sorted_by_start(s) ==> forall|k: int|
            0 <= k < series_insert_pos(s, start) ==> #[trigger] s[k].start <= start,
    decreases s.len(),
{
    if s.len() > 0 {
        lemma_series_insert_pos(s.drop_last(), start);
        let p = series_insert_pos(s, start);
        if s.last().start <= start {
            if sorted_by_start(s) {
                assert forall|k: int| 0 <= k < p implies #[trigger] s[k].start <= start by {
                    if k < s.len() - 1 {
                        assert(s[k].start <= s[s.len() - 1].start);
                    }
                }
            }
        } else {
            assert forall|k: int| p <= k < s.len() implies #[trigger] s[k].start > start by {
                if k < s.len() - 1 {
                    assert(s.drop_last()[k] == s[k]);
                }
            }
            if sorted_by_start(s) {
                assert forall|i: int, j: int|
                    #![trigger s.drop_last()[i], s.drop_last()[j]]
                    0 <= i < j < s.drop_last().len() implies s.drop_last()[i].start
                    <= s.drop_last()[j].start by {
                    assert(s.drop_last()[i] == s[i]);
                    assert(s.drop_last()[j] == s[j]);
                }
                assert forall|k: int| 0 <= k < p implies #[trigger] s[k].start <= start by {
                    assert(s.drop_last()[k] == s[k]);
                }
            }
        }
    }
}

/// Stable insertion keeps a start-sorted list sorted.
pub proof fn lemma_series_insert_sorted(s: Seq<SeriesView>, v: SeriesView)
    requires
        sorted_by_start(s),
    ensures
        sorted_by_start(s.insert(series_insert_pos(s, v.start), v)),
{
    lemma_series_insert_pos(s, v.start);
    let p = series_insert_pos(s, v.start);
    let out = s.insert(p, v);
    assert forall|i: int, j: int|
        #![trigger out[i], out[j]]
        0 <= i < j < out.len() implies out[i].start <= out[j].start by {
        let oi = if i < p {
            s[i]
        } else if i == p {
            v
        } else {
            s[i - 1]
        };
        let oj = if j < p {
            s[j]
        } else if j == p {
            v
        } else {
            s[j - 1]
        };
        assert(out[i] == oi);
        assert(out[j] == oj);
    }
}

/// Inserting a run anywhere adds exactly that run.
proof fn lemma_series_insert_to_multiset(s: Seq<SeriesView>, p: int, v: SeriesView)
    requires
        0 <= p <= s.len(),
    ensures
        s.insert(p, v).to_multiset() == s.to_multiset().insert(v),
{
    broadcast use vstd::seq_lib::group_to_multiset_ensures;
    broadcast use vstd::multiset::group_multiset_axioms;

    let t = s.insert(p, v);
    assert(s =~= s.subrange(0, p) + s.subrange(p, s.len() as int));
    vstd::seq_lib::lemma_multiset_commutative(s.subrange(0, p), s.subrange(p, s.len() as int));
    vstd::seq_lib::lemma_multiset_commutative(
        s.subrange(0, p).push(v),
        s.subrange(p, s.len() as int),
    );
    assert(t.to_multiset() =~= s.to_multiset().insert(v));
}

/// Sorting a website's runs keeps exactly those runs: the stable sort by
/// start is a permutation.
pub proof fn lemma_stable_sort_by_start_permutes(s: Seq<SeriesView>)
    ensures
        stable_sort_by_start(s).to_multiset() == s.to_multiset(),
    decreases s.len(),
{
    broadcast use vstd::seq_lib::group_to_multiset_ensures;

    if s.len() > 0 {
        let sorted = stable_sort_by_start(s.drop_last());
        lemma_stable_sort_by_start_permutes(s.drop_last());
        lemma_series_insert_pos(sorted, s.last().start);
        lemma_series_insert_to_multiset(
            sorted,
            series_insert_pos(sorted, s.last().start),
            s.last(),
        );
        assert(s =~= s.drop_last().push(s.last()));
    }
}

/// The stable sort by start is sorted.
pub proof fn lemma_stable_sort_by_start_sorted(s: Seq<SeriesView>)
    ensures
        sorted_by_start(stable_sort_by_start(s)),
    decreases s.len(),
{
    if s.len() > 0 {
        lemma_stable_sort_by_start_sorted(s.drop_last());
        lemma_series_insert_sorted(stable_sort_by_start(s.drop_last()), s.last());
    }
}

/// Sorts one website's runs by start time, keeping the relative order of
/// runs with equal starts.
fn sort_series_by_start(runs: Vec<CheckSeries>) -> (r: Vec<CheckSeries>)
    requires
        forall|k: int|
            0 <= k < runs@.len() ==> #[trigger] runs@[k]@.start <= runs@[k]@.end,
    ensures
        series_views(r@) == stable_sort_by_start(series_views(runs@)),
        forall|k: int| 0 <= k < r@.len() ==> #[trigger] r@[k]@.start <= r@[k]@.end,
{
    let ghost orig = runs@;
    let mut rest = runs;
    let mut out: Vec<CheckSeries> = Vec::new();
    proof {
        assert(series_views(orig.take(0)) =~= Seq::<SeriesView>::empty());
        assert(series_views(out@) =~= stable_sort_by_start(series_views(orig.take(0))));
    }
    while rest.len() > 0
        invariant
            0 <= orig.len() - rest.len() <= orig.len(),
            rest@ == orig.skip(orig.len() - rest.len()),
            series_views(out@) == stable_sort_by_start(
                series_views(orig.take(orig.len() - rest.len())),
            ),
            forall|k: int| 0 <= k < orig.len() ==> #[trigger] orig[k]@.start <= orig[k]@.end,
            forall|k: int| 0 <= k < out@.len() ==> #[trigger] out@[k]@.start <= out@[k]@.end,
        decreases rest.len(),
    {
        let ghost done = orig.len() - rest@.len();
        let c = rest.remove(0);
        proof {
            assert(rest@ =~= orig.skip(done + 1));
            assert(c == orig[done]);
        }
        proof {
            assert(series_views(out@).take(out@.len() as int) =~= series_views(out@));
        }
        let mut j: usize = out.len();
        while j > 0 && out[j - 1].request_time_range_start > c.request_time_range_start
            invariant
                0 <= j <= out@.len(),
                forall|k: int|
                    j <= k < out@.len() ==> #[trigger] out@[k].request_time_range_start
                        > c.request_time_range_start,
                series_insert_pos(series_views(out@), c.request_time_range_start as int)
                    == series_insert_pos(
                    series_views(out@).take(j as int),
                    c.request_time_range_start as int,
                ),
            decreases j,
        {
            proof {
                let v = series_views(out@);
                assert(v.take(j as int).drop_last() =~= v.take(j - 1));
                assert(v.take(j as int).last() == v[j - 1]);
            }
            j = j - 1;
        }
        proof {
            let v = series_views(out@);
            if j > 0 {
                assert(v.take(j as int).last() == v[j - 1]);
                assert(series_insert_pos(v.take(j as int), c.request_time_range_start as int)
                    == j);
            } else {
                assert(v.take(0) =~= Seq::<SeriesView>::empty());
            }
            assert(series_insert_pos(v, c.request_time_range_start as int) == j);
        }
        let ghost pre = series_views(out@);
        out.insert(j, c);
        proof {
            assert(series_views(out@) =~= pre.insert(
                series_insert_pos(pre, c@.start),
                c@,
            ));
            let upto = series_views(orig.take(done + 1));
            assert(upto.drop_last() =~= series_views(orig.take(done)));
            assert(upto.last() == c@);
            assert(series_views(out@) =~= stable_sort_by_start(upto));
        }
    }
    proof {
        assert(orig.take(orig.len() as int) =~= orig);
    }
    out
}

/// Number of healthy runs.
pub open spec fn count_ok_spec(g: Seq<SeriesView>) -> int {
    g.filter(|v: SeriesView| v.state == CheckState::Healthy).len() as int
}

/// The greatest end time among healthy runs, or absent when none is healthy.
pub open spec fn last_ok_spec(g: Seq<SeriesView>) -> Option<int>
    decreases g.len(),
{
    if g.len() == 0 {
        None
    } else {
        let p = last_ok_spec(g.drop_last());
        if g.last().state == CheckState::Healthy {
            match p {
                Option::Some(e) => if e >= g.last().end {
                    Some(e)
                } else {
                    Some(g.last().end)
                },
                Option::None => Some(g.last().end),
            }
        } else {
            p
        }
    }
}

/// The mathematical value of an optional instant.
pub open spec fn time_view(o: Option<i64>) -> Option<int> {
    match o {
        Option::Some(t) => Some(t as int),
        Option::None => None,
    }
}

/// One website's dashboard entry: its name, summary statistics over its
/// compacted runs, and the downsampled status bar. The ratio is a share of
/// runs, not of raw observations: an intentional trade of per-probe
/// precision for storage compactness.
#[derive(Debug)]
pub struct WebsiteStatus {
    pub website: String,
    pub last_ok: Option<i64>,
    pub ok_ratio: String,
    pub total_requests: usize,
    pub count_ok: usize,
    pub bar_info: BarInfo,
}

/// What the dashboard entry of the website named `w`, whose start-sorted
/// runs are `g`, must hold.
pub open spec fn status_matches(st: WebsiteStatus, w: Seq<char>, g: Seq<SeriesView>) -> bool {
    &&& st.website@ == w
    &&& st.total_requests == g.len()
    &&& st.count_ok == count_ok_spec(g)
    &&& time_view(st.last_ok) == last_ok_spec(g)
    &&& st.ok_ratio@ == ok_ratio_chars(count_ok_spec(g), g.len() as int)
    &&& st.bar_info.elems@.len() == BAR_ELEMS
    &&& (g.len() == 0 ==> (forall|i: int|
        0 <= i < BAR_ELEMS ==> st.bar_info.elems@[i] == BarClass::Unknown)
        && st.bar_info.first_time is None && st.bar_info.last_time is None)
    &&& (g.len() > 0 ==> (forall|i: int|
        0 <= i < BAR_ELEMS ==> st.bar_info.elems@[i] == bucket_class(g, BAR_ELEMS as int, i))
        && time_view(st.bar_info.first_time) == Some(g[0].start) && time_view(
        st.bar_info.last_time,
    ) == Some(g[g.len() - 1].end))
}

/// Position of a website's entry among the collected names, if present.
fn find_name(names: &Vec<String>, website: &String) -> (r: Option<usize>)
    ensures
        match r {
            Option::Some(k) => 0 <= k < names@.len() && names@[k as int]@ == website@,
            Option::None => forall|k: int| 0 <= k < names@.len() ==> #[trigger] names@[k]@
                != website@,
        },
{
    let mut i: usize = 0;
    while i < names.len()
        invariant
            0 <= i <= names@.len(),
            forall|k: int| 0 <= k < i ==> #[trigger] names@[k]@ != website@,
        decreases names@.len() - i,
    {
        if names[i] == *website {
            return Some(i);
        }
        i = i + 1;
    }
    None
}

/// Builds the dashboard data: groups the persisted runs by website (in first
/// occurrence order of the names), sorts each website's runs by start time,
/// and combines its downsampled status bar with its summary statistics.
pub fn compute_status(checks: Vec<CheckSeries>) -> (r: Vec<WebsiteStatus>)
    requires
        forall|k: int| 0 <= k < checks@.len() ==> #[trigger] checks@[k]@.start <= checks@[k]@.end,
    ensures
        r@.len() == distinct_websites(series_views(checks@)).len(),
        forall|k: int|
            0 <= k < r@.len() ==> status_matches(
                #[trigger] r@[k],
                distinct_websites(series_views(checks@))[k],
                stable_sort_by_start(
                    runs_of(
                        series_views(checks@),
                        distinct_websites(series_views(checks@))[k],
                    ),
                ),
            ),
{
    let ghost orig = checks@;
    let ghost views = series_views(checks@);
    let mut rest = checks;
    let mut names: Vec<String> = Vec::new();
    let mut groups: Vec<Vec<CheckSeries>> = Vec::new();
    proof {
        assert(series_views(orig.take(0)) =~= Seq::<SeriesView>::empty());
    }
    while rest.len() > 0
        invariant
            0 <= orig.len() - rest.len() <= orig.len(),
            rest@ == orig.skip(orig.len() - rest.len()),
            forall|k: int| 0 <= k < orig.len() ==> #[trigger] orig[k]@.start <= orig[k]@.end,
            names@.len() == groups@.len(),
            names@.len() == distinct_websites(
                series_views(orig.take(orig.len() - rest.len())),
            ).len(),
            forall|k: int|
                0 <= k < names@.len() ==> #[trigger] names@[k]@ == distinct_websites(
                    series_views(orig.take(orig.len() - rest@.len())),
                )[k],
            forall|k: int|
                0 <= k < groups@.len() ==> #[trigger] series_views(groups@[k]@) == runs_of(
                    series_views(orig.take(orig.len() - rest@.len())),
                    names@[k]@,
                ),
            forall|k: int, m: int|
                0 <= k < groups@.len() && 0 <= m < groups@[k]@.len()
                    ==> #[trigger] groups@[k]@[m]@.start <= groups@[k]@[m]@.end,
        decreases rest.len(),
    {
        let ghost done = orig.len() - rest@.len();
        let ghost pviews = series_views(orig.take(done));
        let ghost d_old = distinct_websites(pviews);
        let c = rest.remove(0);
        proof {
            assert(rest@ =~= orig.skip(done + 1));
            assert(c == orig[done]);
            assert(series_views(orig.take(done + 1)) =~= pviews.push(c@));
            lemma_distinct_unique(pviews);
        }
        let ghost pviews1 = series_views(orig.take(done + 1));
        let ghost w = c@.website;
        let found = find_name(&names, &c.website);
        proof {
            assert(pviews1.drop_last() =~= pviews);
            match found {
                Option::Some(k) => {
                    assert(d_old[k as int] == w);
                    assert(d_old.contains(w));
                    assert(distinct_websites(pviews1) == d_old);
                },
                Option::None => {
                    if d_old.contains(w) {
                        let k = choose|k: int| 0 <= k < d_old.len() && d_old[k] == w;
                        assert(names@[k]@ == w);
                        assert(false);
                    }
                    assert(distinct_websites(pviews1) == d_old.push(w));
                },
            }
        }
        match found {
            Some(k) => {
                let ghost groups_before = groups@;
                let mut g = groups.remove(k);
                let ghost g_old_views = series_views(g@);
                g.push(c);
                let ghost g_new_views = series_views(g@);
                proof {
                    assert(g_new_views =~= g_old_views.push(c@));
                }
                let ghost groups_mid = groups@;
                groups.insert(k, g);
                proof {
                    assert(groups@.len() == groups_before.len());
                    assert(series_views(groups@[k as int]@) == g_new_views);
                    assert forall|j: int| 0 <= j < groups@.len() implies #[trigger] series_views(
                        groups@[j]@,
                    ) == runs_of(pviews1, names@[j]@) by {
                        let predj = |v: SeriesView| v.website == names@[j]@;
                        pviews.lemma_filter_push(c@, predj);
                        if j == k {
                            assert(names@[j]@ == w);
                            assert(predj(c@));
                            assert(series_views(groups@[j]@) =~= runs_of(pviews, names@[j]@).push(
                                c@,
                            ));
                        } else {
                            assert(names@[j]@ == d_old[j]);
                            assert(d_old[j] != d_old[k as int]);
                            assert(!predj(c@));
                            if j < k {
                                assert(groups@[j] == groups_mid[j]);
                                assert(groups_mid[j] == groups_before[j]);
                            } else {
                                assert(groups@[j] == groups_mid[j - 1]);
                                assert(groups_mid[j - 1] == groups_before[j]);
                            }
                        }
                    }
                }
            },
            None => {
                let name = c.website.clone();
                names.push(name);
                let mut g: Vec<CheckSeries> = Vec::new();
                g.push(c);
                groups.push(g);
                proof {
                    lemma_distinct_contains(pviews, w);
                    let pred = |v: SeriesView| v.website == w;
                    assert forall|i: int| 0 <= i < pviews.len() implies !pred(#[trigger] pviews[i])
                        by {}
                    pviews.lemma_all_neg_filter_empty(pred);
                    pviews.lemma_filter_push(c@, pred);
                    assert(series_views(g@) =~= Seq::<SeriesView>::empty().push(c@));
                    assert(runs_of(pviews1, w) =~= Seq::<SeriesView>::empty().push(c@));
                    assert forall|j: int| 0 <= j < groups@.len() implies #[trigger] series_views(
                        groups@[j]@,
                    ) == runs_of(pviews1, names@[j]@) by {
                        if j < groups@.len() - 1 {
                            let predj = |v: SeriesView| v.website == names@[j]@;
                            pviews.lemma_filter_push(c@, predj);
                            assert(names@[j]@ == d_old[j]);
                            assert(!predj(c@));
                        }
                    }
                }
            },
        }
    }
    proof {
        assert(orig.take(orig.len() as int) =~= orig);
    }
    let ghost d = distinct_websites(views);
    let mut result: Vec<WebsiteStatus> = Vec::new();
    while groups.len() > 0
        invariant
            names@.len() == groups@.len(),
            result@.len() + groups@.len() == d.len(),
            forall|j: int|
                0 <= j < result@.len() ==> status_matches(
                    #[trigger] result@[j],
                    d[j],
                    stable_sort_by_start(runs_of(views, d[j])),
                ),
            forall|k: int|
                0 <= k < names@.len() ==> #[trigger] names@[k]@ == d[result@.len() + k],
            forall|k: int|
                0 <= k < groups@.len() ==> #[trigger] series_views(groups@[k]@) == runs_of(
                    views,
                    names@[k]@,
                ),
            forall|k: int, m: int|
                0 <= k < groups@.len() && 0 <= m < groups@[k]@.len()
                    ==> #[trigger] groups@[k]@[m]@.start <= groups@[k]@[m]@.end,
        decreases groups.len(),
    {
        let ghost before = result@.len() as int;
        let name = names.remove(0);
        let g_raw = groups.remove(0);
        let ghost raw_views = series_views(g_raw@);
        proof {
            lemma_stable_sort_by_start_sorted(raw_views);
        }
        let sorted = sort_series_by_start(g_raw);
        let ghost sviews = series_views(sorted@);
        let total = sorted.len();
        let mut count_ok: usize = 0;
        let mut last_ok: Option<i64> = None;
        let mut m: usize = 0;
        proof {
            assert(sviews.take(0) =~= Seq::<SeriesView>::empty());
            let pred = |v: SeriesView| v.state == CheckState::Healthy;
            assert(sviews.take(0).filter(pred) =~= Seq::<SeriesView>::empty());
        }
        while m < total
            invariant
                0 <= m <= total,
                total == sorted@.len(),
                sviews == series_views(sorted@),
                count_ok <= m,
                count_ok == count_ok_spec(sviews.take(m as int)),
                time_view(last_ok) == last_ok_spec(sviews.take(m as int)),
            decreases total - m,
        {
            let is_ok = match sorted[m].result {
                CheckState::Healthy => true,
                CheckState::Unhealthy => false,
            };
            if is_ok {
                count_ok = count_ok + 1;
                let new_end = sorted[m].request_time_range_end;
                last_ok = match last_ok {
                    Some(e) => if e >= new_end {
                        Some(e)
                    } else {
                        Some(new_end)
                    },
                    None => Some(new_end),
                };
            }
            proof {
                let pred = |v: SeriesView| v.state == CheckState::Healthy;
                assert(sviews.take(m + 1).drop_last() =~= sviews.take(m as int));
                assert(sviews.take(m + 1).last() == sviews[m as int]);
                assert(sviews.take(m + 1) =~= sviews.take(m as int).push(sviews[m as int]));
                sviews.take(m as int).lemma_filter_push(sviews[m as int], pred);
            }
            m = m + 1;
        }
        proof {
            assert(sviews.take(total as int) =~= sviews);
        }
        let ok_ratio = format_ok_ratio(count_ok, total);
        proof {
            assert(wf_spans(sviews));
        }
        let bar_info = checks_to_classes(&sorted, BAR_ELEMS);
        result.push(
            WebsiteStatus {
                website: name,
                last_ok,
                ok_ratio,
                total_requests: total,
                count_ok,
                bar_info,
            },
        );
        proof {
            assert(raw_views == runs_of(views, d[before]));
            assert(status_matches(
                result@[before],
                d[before],
                stable_sort_by_start(runs_of(views, d[before])),
            ));
        }
    }
    result
}

} // verus!
